//! Linux file types, modes, credentials and stat structures.

use std::time::{SystemTime, UNIX_EPOCH};

use vstd::prelude::*;

verus! {

/// File type and permission bits (`stat.st_mode`).
pub const S_IFMT: u16 = 0o170000;
pub const S_IFSOCK: u16 = 0o140000;
pub const S_IFLNK: u16 = 0o120000;
pub const S_IFREG: u16 = 0o100000;
pub const S_IFBLK: u16 = 0o060000;
pub const S_IFDIR: u16 = 0o040000;
pub const S_IFCHR: u16 = 0o020000;
pub const S_IFIFO: u16 = 0o010000;

pub const S_ISUID: u16 = 0o4000;
pub const S_ISGID: u16 = 0o2000;
pub const S_ISVTX: u16 = 0o1000;

pub const S_IRWXU: u16 = 0o700;
pub const S_IRUSR: u16 = 0o400;
pub const S_IWUSR: u16 = 0o200;
pub const S_IXUSR: u16 = 0o100;
pub const S_IRWXG: u16 = 0o070;
pub const S_IRGRP: u16 = 0o040;
pub const S_IWGRP: u16 = 0o020;
pub const S_IXGRP: u16 = 0o010;
pub const S_IRWXO: u16 = 0o007;
pub const S_IROTH: u16 = 0o004;
pub const S_IWOTH: u16 = 0o002;
pub const S_IXOTH: u16 = 0o001;

pub const MODE_PERM: u16 = 0o7777;

/// `access(2)` modes.
pub const F_OK: u32 = 0;
pub const X_OK: u32 = 1;
pub const W_OK: u32 = 2;
pub const R_OK: u32 = 4;

/// `lseek` whence.
pub const SEEK_SET: i32 = 0;
pub const SEEK_CUR: i32 = 1;
pub const SEEK_END: i32 = 2;
pub const SEEK_DATA: i32 = 3;
pub const SEEK_HOLE: i32 = 4;

/// `*at` flags.
pub const AT_FDCWD: i32 = -100;
pub const AT_SYMLINK_NOFOLLOW: i32 = 0x100;
pub const AT_REMOVEDIR: i32 = 0x200;
pub const AT_SYMLINK_FOLLOW: i32 = 0x400;
pub const AT_EMPTY_PATH: i32 = 0x1000;

/// Open flags (Linux).
pub const O_RDONLY: i32 = 0;
pub const O_WRONLY: i32 = 1;
pub const O_RDWR: i32 = 2;
pub const O_ACCMODE: i32 = 3;
pub const O_CREAT: i32 = 0o100;
pub const O_EXCL: i32 = 0o200;
pub const O_NOCTTY: i32 = 0o400;
pub const O_TRUNC: i32 = 0o1000;
pub const O_APPEND: i32 = 0o2000;
pub const O_NONBLOCK: i32 = 0o4000;
pub const O_DSYNC: i32 = 0o10000;
pub const O_SYNC: i32 = 0o4010000;
pub const O_DIRECTORY: i32 = 0o200000;
pub const O_NOFOLLOW: i32 = 0o400000;
pub const O_CLOEXEC: i32 = 0o2000000;
pub const O_NOATIME: i32 = 0o1000000;
pub const O_PATH: i32 = 0o10000000;

/// xattr flags.
pub const XATTR_CREATE: u32 = 1;
pub const XATTR_REPLACE: u32 = 2;

/// Maximum file size (16 TiB).
pub const MAX_FILE_SIZE: u64 = 0x1000_0000_0000;

#[derive(Debug, Clone, Copy, PartialEq, Eq, Structural)]
pub enum FileType {
    File,
    Directory,
    Symlink,
    BlockDevice,
    CharDevice,
    Fifo,
    Socket,
}

/// The file type that the type bits of `mode` stand for.
pub open spec fn type_of_mode(mode: u16) -> FileType {
    let t = mode & S_IFMT;
    if t == S_IFDIR {
        FileType::Directory
    } else if t == S_IFLNK {
        FileType::Symlink
    } else if t == S_IFBLK {
        FileType::BlockDevice
    } else if t == S_IFCHR {
        FileType::CharDevice
    } else if t == S_IFIFO {
        FileType::Fifo
    } else if t == S_IFSOCK {
        FileType::Socket
    } else {
        FileType::File
    }
}

/// The type bits of a file type.
pub open spec fn mode_of_type(ft: FileType) -> u16 {
    match ft {
        FileType::File => S_IFREG,
        FileType::Directory => S_IFDIR,
        FileType::Symlink => S_IFLNK,
        FileType::BlockDevice => S_IFBLK,
        FileType::CharDevice => S_IFCHR,
        FileType::Fifo => S_IFIFO,
        FileType::Socket => S_IFSOCK,
    }
}

/// A mode that an inode can have: a file without type and permissions is a regular file, since
/// zero marks a free slot of the inode table.
pub open spec fn some_mode(mode: u16) -> u16 {
    if mode == 0 {
        S_IFREG
    } else {
        mode
    }
}

/// A file of mode zero counts as a regular file anyway.
pub proof fn lemma_some_mode(mode: u16)
    ensures
        type_of_mode(some_mode(mode)) == type_of_mode(mode),
        some_mode(mode) & MODE_PERM == mode & MODE_PERM,
{
    assert(0o100000u16 & 0o170000u16 == 0o100000u16) by (bit_vector);
    assert(0u16 & 0o170000u16 == 0) by (bit_vector);
    assert(0o100000u16 & 0o7777u16 == 0u16 & 0o7777u16) by (bit_vector);
}

pub fn given_mode(mode: u16) -> (m: u16)
    ensures
        m == some_mode(mode),
        m != 0,
{
    if mode == 0 {
        S_IFREG
    } else {
        mode
    }
}

impl FileType {
    pub fn from_mode(mode: u16) -> (ft: Self)
        ensures
            ft == type_of_mode(mode),
    {
        match mode & S_IFMT {
            S_IFDIR => Self::Directory,
            S_IFLNK => Self::Symlink,
            S_IFBLK => Self::BlockDevice,
            S_IFCHR => Self::CharDevice,
            S_IFIFO => Self::Fifo,
            S_IFSOCK => Self::Socket,
            _ => Self::File,
        }
    }

    pub fn as_mode(self) -> (mode: u16)
        ensures
            mode == mode_of_type(self),
    {
        match self {
            Self::File => S_IFREG,
            Self::Directory => S_IFDIR,
            Self::Symlink => S_IFLNK,
            Self::BlockDevice => S_IFBLK,
            Self::CharDevice => S_IFCHR,
            Self::Fifo => S_IFIFO,
            Self::Socket => S_IFSOCK,
        }
    }

    pub fn is_file(self) -> (b: bool)
        ensures
            b == (self is File),
    {
        matches!(self, Self::File)
    }

    pub fn is_dir(self) -> (b: bool)
        ensures
            b == (self is Directory),
    {
        matches!(self, Self::Directory)
    }

    pub fn is_symlink(self) -> (b: bool)
        ensures
            b == (self is Symlink),
    {
        matches!(self, Self::Symlink)
    }

    pub fn is_block_device(self) -> (b: bool)
        ensures
            b == (self is BlockDevice),
    {
        matches!(self, Self::BlockDevice)
    }

    pub fn is_char_device(self) -> (b: bool)
        ensures
            b == (self is CharDevice),
    {
        matches!(self, Self::CharDevice)
    }

    pub fn is_fifo(self) -> (b: bool)
        ensures
            b == (self is Fifo),
    {
        matches!(self, Self::Fifo)
    }

    pub fn is_socket(self) -> (b: bool)
        ensures
            b == (self is Socket),
    {
        matches!(self, Self::Socket)
    }
}

/// A mode made of the bits of a file type and permission bits has that file type.
pub proof fn file_type_roundtrip(ft: FileType, perm: u16)
    ensures
        type_of_mode(mode_of_type(ft) | (perm & MODE_PERM)) == ft,
{
    let p = perm & 0o7777u16;
    assert forall|t: u16| t & 0o7777u16 == 0 implies #[trigger] ((t | p) & 0o170000u16) == t & 0o170000u16 by {
        assert((t | p) & 0o170000u16 == t & 0o170000u16) by (bit_vector)
            requires
                p == perm & 0o7777u16,
        ;
    }
    assert(0o100000u16 & 0o7777u16 == 0 && 0o040000u16 & 0o7777u16 == 0 && 0o120000u16 & 0o7777u16
        == 0 && 0o060000u16 & 0o7777u16 == 0 && 0o020000u16 & 0o7777u16 == 0 && 0o010000u16
        & 0o7777u16 == 0 && 0o140000u16 & 0o7777u16 == 0 && 0o100000u16 & 0o170000u16
        == 0o100000u16 && 0o040000u16 & 0o170000u16 == 0o040000u16 && 0o120000u16 & 0o170000u16
        == 0o120000u16 && 0o060000u16 & 0o170000u16 == 0o060000u16 && 0o020000u16 & 0o170000u16
        == 0o020000u16 && 0o010000u16 & 0o170000u16 == 0o010000u16 && 0o140000u16 & 0o170000u16
        == 0o140000u16) by (bit_vector);
}

#[derive(Debug, Clone, Copy, PartialEq, Eq, Structural)]
pub struct Permissions {
    pub mode: u16,
}

impl Permissions {
    pub fn from_mode(mode: u16) -> (p: Self)
        ensures
            p.mode == mode & MODE_PERM,
    {
        Self { mode: mode & MODE_PERM }
    }

    pub fn readonly(&self) -> (b: bool)
        ensures
            b == (self.mode & 0o222 == 0),
    {
        self.mode & 0o222 == 0
    }

    pub fn set_readonly(&mut self, readonly: bool)
        ensures
            final(self).mode == if readonly {
                old(self).mode & !0o222u16
            } else {
                old(self).mode | 0o200
            },
    {
        if readonly {
            self.mode = self.mode & !0o222u16;
        } else {
            self.mode = self.mode | 0o200;
        }
    }
}

/// `set_readonly` decides what `readonly` answers.
pub proof fn set_readonly_then_readonly(mode: u16)
    ensures
        (mode & !0o222u16) & 0o222 == 0,
        (mode | 0o200) & 0o222 != 0,
{
    assert((mode & !0o222u16) & 0o222 == 0 && (mode | 0o200) & 0o222 != 0) by (bit_vector);
}

#[derive(Debug, Clone, Copy, PartialEq, Eq, Structural)]
pub struct Timespec {
    pub sec: i64,
    pub nsec: u32,
}

/// `std::time::SystemTime`: a reading of the wall clock of the host.
#[verifier::external_type_specification]
#[verifier::external_body]
pub struct ExSystemTime(SystemTime);

/// `std::time::SystemTime::now`: what time it is depends on the machine, and nothing is claimed
/// of it.
#[verifier::external_body]
fn clock_reading() -> SystemTime {
    SystemTime::now()
}

/// `std::time::SystemTime::duration_since` with the Unix epoch: the seconds and nanoseconds since
/// then, or `None` where the clock stands before it. Claimed is only that the nanoseconds, those
/// of `std::time::Duration::subsec_nanos`, lie below one second.
#[verifier::external_body]
fn elapsed_since_epoch(t: SystemTime) -> (d: Option<(u64, u32)>)
    ensures
        d matches Some((_, nsec)) ==> nsec < 1_000_000_000,
{
    match t.duration_since(UNIX_EPOCH) {
        Ok(d) => Some((d.as_secs(), d.subsec_nanos())),
        Err(_) => None,
    }
}

/// The time stamp for a reading of the wall clock.
pub open spec fn timespec_of(t: Option<(u64, u32)>) -> Timespec {
    match t {
        Some((sec, nsec)) => Timespec { sec: sec as i64, nsec },
        None => Timespec { sec: 0, nsec: 0 },
    }
}

impl Timespec {
    /// The nanoseconds lie below one second.
    pub open spec fn normal(self) -> bool {
        self.nsec < 1_000_000_000
    }

    pub fn now() -> (t: Self)
        ensures
            t.normal(),
    {
        Self::from_clock(elapsed_since_epoch(clock_reading()))
    }

    /// The time stamp for a reading of the wall clock; the epoch where there is none.
    pub fn from_clock(t: Option<(u64, u32)>) -> (r: Self)
        ensures
            r == timespec_of(t),
    {
        match t {
            Some((sec, nsec)) => Self { sec: sec as i64, nsec },
            None => Self { sec: 0, nsec: 0 },
        }
    }

    pub fn zero() -> (t: Self)
        ensures
            t.sec == 0,
            t.nsec == 0,
    {
        Self { sec: 0, nsec: 0 }
    }

    /// Seconds and nanoseconds since the Unix epoch; a time before the epoch counts as the
    /// epoch.
    pub fn since_epoch(self) -> (r: (u64, u32))
        ensures
            r == if self.sec >= 0 {
                (self.sec as u64, self.nsec)
            } else {
                (0u64, 0u32)
            },
    {
        if self.sec >= 0 {
            (self.sec as u64, self.nsec)
        } else {
            (0, 0)
        }
    }
}

#[derive(Debug, Clone, Copy, PartialEq, Eq, Structural)]
pub struct FileTimes {
    pub accessed: Option<Timespec>,
    pub modified: Option<Timespec>,
    pub created: Option<Timespec>,
}

impl Default for FileTimes {
    fn default() -> (t: Self)
        ensures
            t == (FileTimes { accessed: None, modified: None, created: None }),
    {
        Self { accessed: None, modified: None, created: None }
    }
}

/// Full Linux `stat` result.
#[derive(Debug, Clone, Copy, PartialEq, Eq, Structural)]
pub struct Stat {
    pub ino: u64,
    pub mode: u16,
    pub nlink: u32,
    pub uid: u32,
    pub gid: u32,
    pub size: u64,
    pub blocks: u64,
    pub blksize: u32,
    pub rdev: u64,
    pub atime: Timespec,
    pub mtime: Timespec,
    pub ctime: Timespec,
    pub btime: Timespec,
}

impl Stat {
    pub fn file_type(&self) -> (ft: FileType)
        ensures
            ft == type_of_mode(self.mode),
    {
        FileType::from_mode(self.mode)
    }

    pub fn permissions(&self) -> (p: Permissions)
        ensures
            p.mode == self.mode & MODE_PERM,
    {
        Permissions::from_mode(self.mode)
    }

    pub fn is_file(&self) -> (b: bool)
        ensures
            b == (type_of_mode(self.mode) is File),
    {
        self.file_type().is_file()
    }

    pub fn is_dir(&self) -> (b: bool)
        ensures
            b == (type_of_mode(self.mode) is Directory),
    {
        self.file_type().is_dir()
    }

    pub fn is_symlink(&self) -> (b: bool)
        ensures
            b == (type_of_mode(self.mode) is Symlink),
    {
        self.file_type().is_symlink()
    }
}

/// `std::fs::Metadata`-like view.
#[derive(Debug, Clone, Copy, PartialEq, Eq, Structural)]
pub struct Metadata {
    pub stat: Stat,
}

impl Metadata {
    pub fn file_type(&self) -> (ft: FileType)
        ensures
            ft == type_of_mode(self.stat.mode),
    {
        self.stat.file_type()
    }

    pub fn is_dir(&self) -> (b: bool)
        ensures
            b == (type_of_mode(self.stat.mode) is Directory),
    {
        self.stat.is_dir()
    }

    pub fn is_file(&self) -> (b: bool)
        ensures
            b == (type_of_mode(self.stat.mode) is File),
    {
        self.stat.is_file()
    }

    pub fn is_symlink(&self) -> (b: bool)
        ensures
            b == (type_of_mode(self.stat.mode) is Symlink),
    {
        self.stat.is_symlink()
    }

    pub fn len(&self) -> (n: u64)
        ensures
            n == self.stat.size,
    {
        self.stat.size
    }

    pub fn permissions(&self) -> (p: Permissions)
        ensures
            p.mode == self.stat.mode & MODE_PERM,
    {
        self.stat.permissions()
    }

    pub fn modified(&self) -> (t: Timespec)
        ensures
            t == self.stat.mtime,
    {
        self.stat.mtime
    }

    pub fn accessed(&self) -> (t: Timespec)
        ensures
            t == self.stat.atime,
    {
        self.stat.atime
    }

    pub fn created(&self) -> (t: Timespec)
        ensures
            t == self.stat.btime,
    {
        self.stat.btime
    }

    pub fn uid(&self) -> (n: u32)
        ensures
            n == self.stat.uid,
    {
        self.stat.uid
    }

    pub fn gid(&self) -> (n: u32)
        ensures
            n == self.stat.gid,
    {
        self.stat.gid
    }

    pub fn ino(&self) -> (n: u64)
        ensures
            n == self.stat.ino,
    {
        self.stat.ino
    }

    pub fn nlink(&self) -> (n: u32)
        ensures
            n == self.stat.nlink,
    {
        self.stat.nlink
    }

    pub fn rdev(&self) -> (n: u64)
        ensures
            n == self.stat.rdev,
    {
        self.stat.rdev
    }
}

/// Process credentials used for permission checks.
#[derive(Debug, Clone)]
pub struct Creds {
    pub uid: u32,
    pub gid: u32,
    pub groups: Vec<u32>,
    pub fsuid: u32,
    pub fsgid: u32,
}

/// Credentials as the permission rules see them.
pub ghost struct CredsView {
    pub uid: u32,
    pub gid: u32,
    pub groups: Seq<u32>,
    pub fsuid: u32,
    pub fsgid: u32,
}

impl View for Creds {
    type V = CredsView;

    open spec fn view(&self) -> CredsView {
        CredsView {
            uid: self.uid,
            gid: self.gid,
            groups: self.groups@,
            fsuid: self.fsuid,
            fsgid: self.fsgid,
        }
    }
}

/// The credentials of a process that runs as `uid` and `gid`.
pub open spec fn creds_of(uid: u32, gid: u32) -> CredsView {
    CredsView { uid, gid, groups: seq![gid], fsuid: uid, fsgid: gid }
}

impl Creds {
    pub fn root() -> (c: Self)
        ensures
            c@ == creds_of(0, 0),
    {
        Self::new(0, 0)
    }

    pub fn new(uid: u32, gid: u32) -> (c: Self)
        ensures
            c@ == creds_of(uid, gid),
    {
        let mut groups: Vec<u32> = Vec::new();
        groups.push(gid);
        let c = Self { uid, gid, groups, fsuid: uid, fsgid: gid };
        assert(c.groups@ =~= seq![gid]);
        c
    }

    pub fn is_superuser(&self) -> (b: bool)
        ensures
            b == (self.fsuid == 0),
    {
        self.fsuid == 0
    }

    /// Whether `gid` is one of the supplementary groups.
    pub fn in_group(&self, gid: u32) -> (b: bool)
        ensures
            b == self.groups@.contains(gid),
    {
        let n: usize = self.groups.len();
        let mut i: usize = 0;
        while i < n
            invariant
                i <= n,
                n == self.groups@.len(),
                forall|j: int| 0 <= j < i ==> self.groups@[j] != gid,
            decreases n - i,
        {
            if self.groups[i] == gid {
                return true;
            }
            i = i + 1;
        }
        false
    }
}

impl Default for Creds {
    fn default() -> (c: Self)
        ensures
            c@ == creds_of(0, 0),
    {
        Self::root()
    }
}

/// Filesystem-wide statistics (`statfs`).
#[derive(Debug, Clone, Copy, PartialEq, Eq, Structural)]
pub struct StatFs {
    pub block_size: u32,
    pub total_blocks: u64,
    pub free_blocks: u64,
    pub avail_blocks: u64,
    pub total_inodes: u64,
    pub free_inodes: u64,
    pub namelen: u32,
    pub fsid: u64,
}

/// Permission bits needed for an operation.
#[derive(Debug, Clone, Copy, PartialEq, Eq, Structural)]
pub enum Access {
    Read,
    Write,
    Exec,
}

/// The three permission bits that `mode` grants to `creds`.
pub open spec fn granted_bits(mode: u16, uid: u32, gid: u32, creds: CredsView) -> u16 {
    if creds.fsuid == uid {
        (mode >> 6) & 7
    } else if creds.fsgid == gid || creds.groups.contains(gid) {
        (mode >> 3) & 7
    } else {
        mode & 7
    }
}

/// The permission bit that an access asks for.
pub open spec fn needed_bit(access: Access) -> u16 {
    match access {
        Access::Read => 4,
        Access::Write => 2,
        Access::Exec => 1,
    }
}

/// Whether `creds` may access a file of this mode and owner. The superuser may read and write
/// anything, and may execute a directory or what anybody may execute.
pub open spec fn may_access(mode: u16, uid: u32, gid: u32, creds: CredsView, access: Access) -> bool {
    if creds.fsuid == 0 {
        access is Exec ==> mode & 0o111 != 0 || type_of_mode(mode) is Directory
    } else {
        granted_bits(mode, uid, gid, creds) & needed_bit(access) == needed_bit(access)
    }
}

pub fn check_access(mode: u16, uid: u32, gid: u32, creds: &Creds, access: Access) -> (b: bool)
    ensures
        b == may_access(mode, uid, gid, creds@, access),
{
    if creds.is_superuser() {
        return match access {
            Access::Exec => (mode & 0o111) != 0 || FileType::from_mode(mode).is_dir(),
            _ => true,
        };
    }
    let bits: u16 = if creds.fsuid == uid {
        (mode >> 6) & 7
    } else if creds.fsgid == gid || creds.in_group(gid) {
        (mode >> 3) & 7
    } else {
        mode & 7
    };
    let need: u16 = match access {
        Access::Read => 4,
        Access::Write => 2,
        Access::Exec => 1,
    };
    bits & need == need
}

/// The permission bits of `mode` that `umask` leaves.
pub open spec fn masked_mode(mode: u16, umask: u16) -> u16 {
    (mode & MODE_PERM) & !umask
}

pub fn apply_umask(mode: u16, umask: u16) -> (m: u16)
    ensures
        m == masked_mode(mode, umask),
{
    (mode & MODE_PERM) & !umask
}

/// No bit of the umask is left, and no bit is added.
pub proof fn umask_clears(mode: u16, umask: u16)
    ensures
        masked_mode(mode, umask) & umask == 0,
        masked_mode(mode, umask) & !(mode & MODE_PERM) == 0,
        masked_mode(mode, umask) & S_IFMT == 0,
{
    assert(((mode & 0o7777u16) & !umask) & umask == 0 && ((mode & 0o7777u16) & !umask) & !(mode
        & 0o7777u16) == 0 && ((mode & 0o7777u16) & !umask) & 0o170000u16 == 0) by (bit_vector);
}

/// A device number in the 64-bit `dev_t` encoding of glibc.
pub open spec fn dev_of(major: u64, minor: u64) -> u64 {
    ((major & 0xfff) << 8) | (minor & 0xff) | ((minor & 0xffff_ff00) << 12) | ((major
        & 0xffff_f000) << 32)
}

pub open spec fn major_of(dev: u64) -> u64 {
    ((dev >> 8) & 0xfff) | ((dev >> 32) & 0xffff_f000)
}

pub open spec fn minor_of(dev: u64) -> u64 {
    (dev & 0xff) | ((dev >> 12) & 0xffff_ff00)
}

pub fn make_dev(major: u32, minor: u32) -> (dev: u64)
    ensures
        dev == dev_of(major as u64, minor as u64),
{
    let major = major as u64;
    let minor = minor as u64;
    ((major & 0xfff) << 8) | (minor & 0xff) | ((minor & 0xffff_ff00) << 12) | ((major
        & 0xffff_f000) << 32)
}

pub fn major(dev: u64) -> (n: u32)
    ensures
        n == major_of(dev),
{
    let m = ((dev >> 8) & 0xfff) | ((dev >> 32) & 0xffff_f000);
    assert(((dev >> 8) & 0xfff) | ((dev >> 32) & 0xffff_f000) <= 0xffff_ffff) by (bit_vector);
    m as u32
}

pub fn minor(dev: u64) -> (n: u32)
    ensures
        n == minor_of(dev),
{
    let m = (dev & 0xff) | ((dev >> 12) & 0xffff_ff00);
    assert((dev & 0xff) | ((dev >> 12) & 0xffff_ff00) <= 0xffff_ffff) by (bit_vector);
    m as u32
}

/// `major` and `minor` take apart what `make_dev` put together.
pub proof fn dev_roundtrip(major: u32, minor: u32)
    ensures
        major_of(dev_of(major as u64, minor as u64)) == major,
        minor_of(dev_of(major as u64, minor as u64)) == minor,
{
    let a = major as u64;
    let b = minor as u64;
    assert(major_of(dev_of(a, b)) == a && minor_of(dev_of(a, b)) == b) by (bit_vector)
        requires
            a <= 0xffff_ffff,
            b <= 0xffff_ffff,
    ;
}

} // verus!
