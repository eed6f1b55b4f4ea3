//! Open file handles, and the options to open them.

use vstd::prelude::*;

use crate::bytes::{append, zero_vec};
use crate::calls::{
    fresh, lemma_open_spares, node_stat, open_at, open_handle, open_room, plain_options, reached,
    Place,
};
use crate::data::{done, read_agrees, storage_failed};
use crate::dir::{items, DirEntry, DirItem};
use crate::edit::{given_back, truncate_agrees, write_agrees};
use crate::error::{
    ebadf, eexist, einval, eisdir, enoent, enotdir, Error, Result, EBADF, EINVAL, EIO, ENOSPC,
    EOVERFLOW,
};
use crate::flush::{ends_in_sync, flush_failed, journaled, rests};
use crate::fs::LinuxFile;
use crate::inner::{bare, holds, keeps, Inner};
use crate::model::FsView;
use crate::ops::{
    chmod_op, dec_open_op, inc_open_op, lemma_spared_on, lemma_spared_same, next_ino, same_outcome,
    spared,
};
use crate::path::UnixPath;
use crate::types::{
    apply_umask, creds_of, Creds, FileType, Metadata, Permissions, Stat, Timespec, O_ACCMODE,
    O_APPEND, O_CREAT, O_DIRECTORY, O_EXCL, O_NOFOLLOW, O_RDONLY, O_RDWR, O_TRUNC, O_WRONLY,
    S_IFREG,
};
use crate::disk::clear;
use crate::open::reopens;

verus! {

/// Options for opening a path inside the filesystem.
#[derive(Debug, Clone, Copy, PartialEq, Eq, Structural)]
pub struct OpenOptions {
    pub read: bool,
    pub write: bool,
    pub append: bool,
    pub truncate: bool,
    pub create: bool,
    pub create_new: bool,
    pub mode: u16,
    pub nofollow: bool,
    pub directory: bool,
}

impl Default for OpenOptions {
    fn default() -> (o: Self)
        ensures
            o == plain_options(),
    {
        Self {
            read: false,
            write: false,
            append: false,
            truncate: false,
            create: false,
            create_new: false,
            mode: 0o666,
            nofollow: false,
            directory: false,
        }
    }
}

/// The options that Linux open flags ask for.
pub open spec fn options_of(flags: i32, mode: u16) -> OpenOptions {
    let acc = flags & O_ACCMODE;
    OpenOptions {
        read: acc == O_RDONLY || acc == O_RDWR,
        write: acc == O_WRONLY || acc == O_RDWR,
        append: flags & O_APPEND != 0,
        truncate: flags & O_TRUNC != 0,
        create: flags & O_CREAT != 0,
        create_new: flags & O_CREAT != 0 && flags & O_EXCL != 0,
        mode,
        nofollow: flags & O_NOFOLLOW != 0,
        directory: flags & O_DIRECTORY != 0,
    }
}

/// `f` with the bits of `bit`, where `on` says so.
pub open spec fn flag_if(f: i32, on: bool, bit: i32) -> i32 {
    if on {
        f | bit
    } else {
        f
    }
}

/// The Linux open flags that stand for options.
pub open spec fn flags_of(o: OpenOptions) -> i32 {
    let acc = if o.read && o.write {
        O_RDWR
    } else if o.write {
        O_WRONLY
    } else {
        O_RDONLY
    };
    flag_if(
        flag_if(
            flag_if(
                flag_if(
                    flag_if(flag_if(acc, o.append, O_APPEND), o.truncate, O_TRUNC),
                    o.create,
                    O_CREAT,
                ),
                o.create_new,
                O_EXCL,
            ),
            o.nofollow,
            O_NOFOLLOW,
        ),
        o.directory,
        O_DIRECTORY,
    )
}

impl OpenOptions {
    pub fn new() -> (o: Self)
        ensures
            o == plain_options(),
    {
        Self::default()
    }

    pub fn read(&mut self, read: bool) -> (o: &mut Self)
        ensures
            *o == (OpenOptions { read, ..*old(self) }),
            *final(self) == *final(o),
    {
        self.read = read;
        self
    }

    pub fn write(&mut self, write: bool) -> (o: &mut Self)
        ensures
            *o == (OpenOptions { write, ..*old(self) }),
            *final(self) == *final(o),
    {
        self.write = write;
        self
    }

    /// Asks for writes at the end of the file; implies `write`.
    pub fn append(&mut self, append: bool) -> (o: &mut Self)
        ensures
            *o == (OpenOptions { append, write: append || old(self).write, ..*old(self) }),
            *final(self) == *final(o),
    {
        self.append = append;
        if append {
            self.write = true;
        }
        self
    }

    pub fn truncate(&mut self, truncate: bool) -> (o: &mut Self)
        ensures
            *o == (OpenOptions { truncate, ..*old(self) }),
            *final(self) == *final(o),
    {
        self.truncate = truncate;
        self
    }

    pub fn create(&mut self, create: bool) -> (o: &mut Self)
        ensures
            *o == (OpenOptions { create, ..*old(self) }),
            *final(self) == *final(o),
    {
        self.create = create;
        self
    }

    /// Asks for a file that does not exist yet; implies `create`.
    pub fn create_new(&mut self, create_new: bool) -> (o: &mut Self)
        ensures
            *o == (OpenOptions { create_new, create: create_new || old(self).create, ..*old(self) }),
            *final(self) == *final(o),
    {
        self.create_new = create_new;
        if create_new {
            self.create = true;
        }
        self
    }

    pub fn mode(&mut self, mode: u16) -> (o: &mut Self)
        ensures
            *o == (OpenOptions { mode, ..*old(self) }),
            *final(self) == *final(o),
    {
        self.mode = mode;
        self
    }

    pub fn from_linux_flags(flags: i32, mode: u16) -> (o: Self)
        ensures
            o == options_of(flags, mode),
    {
        let acc: i32 = flags & O_ACCMODE;
        Self {
            read: acc == O_RDONLY || acc == O_RDWR,
            write: acc == O_WRONLY || acc == O_RDWR,
            append: flags & O_APPEND != 0,
            truncate: flags & O_TRUNC != 0,
            create: flags & O_CREAT != 0,
            create_new: flags & O_CREAT != 0 && flags & O_EXCL != 0,
            mode,
            nofollow: flags & O_NOFOLLOW != 0,
            directory: flags & O_DIRECTORY != 0,
        }
    }

    pub fn as_flags(&self) -> (f: i32)
        ensures
            f == flags_of(*self),
    {
        let mut f: i32 = if self.read && self.write {
            O_RDWR
        } else if self.write {
            O_WRONLY
        } else {
            O_RDONLY
        };
        if self.append {
            f = f | O_APPEND;
        }
        if self.truncate {
            f = f | O_TRUNC;
        }
        if self.create {
            f = f | O_CREAT;
        }
        if self.create_new {
            f = f | O_EXCL;
        }
        if self.nofollow {
            f = f | O_NOFOLLOW;
        }
        if self.directory {
            f = f | O_DIRECTORY;
        }
        f
    }
}

/// The entries of a directory, one after the other.
#[derive(Debug)]
pub struct ReadDir {
    /// What is left, the next entry last.
    pub left: Vec<DirEntry>,
}

impl View for ReadDir {
    type V = Seq<DirItem>;

    /// The entries that are left.
    open spec fn view(&self) -> Seq<DirItem> {
        items(self.left@.reverse())
    }
}

impl ReadDir {
    pub(crate) fn new(entries: Vec<DirEntry>) -> (d: Self)
        ensures
            d@ == items(entries@),
    {
        let ghost all = entries@;
        let mut entries = entries;
        let mut left: Vec<DirEntry> = Vec::new();
        while entries.len() > 0
            invariant
                left@.len() + entries@.len() == all.len(),
                entries@ == all.take(entries@.len() as int),
                left@ == all.skip(entries@.len() as int).reverse(),
            decreases entries@.len(),
        {
            let ghost n = entries@.len();
            let ghost l0 = left@;
            match entries.pop() {
                Some(e) => {
                    left.push(e);
                    assert(e == all[n - 1]);
                    assert(left@ =~= all.skip(n - 1).reverse());
                    assert(entries@ =~= all.take(n - 1));
                },
                None => {},
            }
        }
        assert(left@.reverse() =~= all);
        Self { left }
    }

    /// The next entry.
    pub fn next(&mut self) -> (r: Option<Result<DirEntry>>)
        ensures
            if old(self)@.len() == 0 {
                r is None && final(self)@ == old(self)@
            } else {
                &&& r matches Some(Ok(e)) && e@ == old(self)@[0]
                &&& final(self)@ == old(self)@.drop_first()
            },
    {
        let ghost l0 = self.left@;
        match self.left.pop() {
            Some(e) => {
                assert(self@ =~= items(l0.reverse()).drop_first());
                Some(Ok(e))
            },
            None => None,
        }
    }
}

/// A position in a file.
#[derive(Debug, Clone, Copy, PartialEq, Eq, Structural)]
pub enum SeekFrom {
    Start(u64),
    End(i64),
    Current(i64),
}

/// Whether flags allow reads.
pub open spec fn can_read(flags: i32) -> bool {
    flags & O_ACCMODE != O_WRONLY
}

/// Whether flags allow writes.
pub open spec fn can_write(flags: i32) -> bool {
    flags & O_ACCMODE != O_RDONLY
}

/// The volume at time `t`.
pub open spec fn at_time(s: Inner, t: Timespec) -> Inner {
    Inner { clock: t, ..s }
}

/// Where `pos` leads in a file of `size` bytes, from byte `cur` on.
pub open spec fn seek_to(pos: SeekFrom, cur: u64, size: int) -> int {
    match pos {
        SeekFrom::Start(o) => o as int,
        SeekFrom::Current(o) => cur + o,
        SeekFrom::End(o) => size + o,
    }
}

impl Inner {
    /// Opens an existing file, or creates it where the options say so.
    pub(crate) fn open_node(
        &mut self,
        root: u64,
        cwd: u64,
        creds: &Creds,
        path: UnixPath,
        opts: &OpenOptions,
        umask: u16,
        strict: bool,
    ) -> (r: Result<u64>)
        requires
            old(self).wf(),
        ensures
            final(self).wf(),
            keeps(*old(self), *final(self)),
            done(
                *old(self),
                *final(self),
                open_at(
                    old(self)@,
                    Place { root, cwd, creds: creds@ },
                    path@,
                    *opts,
                    umask,
                    strict,
                ),
                r,
                open_room(old(self)@, Place { root, cwd, creds: creds@ }, path@, *opts, umask),
                fresh(*opts),
            ),
            r is Err ==> spared(
                old(self)@,
                final(self)@,
                reached(
                    old(self)@,
                    Place { root, cwd, creds: creds@ },
                    path@,
                    !opts.nofollow,
                ),
            ),
    {
        let ghost v = self@;
        let ghost touched = reached(
            v,
            Place { root, cwd, creds: creds@ },
            path@,
            !opts.nofollow,
        );
        proof {
            lemma_spared_same(v, touched);
        }
        let x = match self.walk(root, cwd, path, !opts.nofollow, creds) {
            Ok(x) => x,
            Err(e) => return Err(e),
        };
        match x.ino {
            Some(ino) => {
                if opts.create_new {
                    return Err(eexist("file exists"));
                }
                let m = match self.meta(ino) {
                    Ok(m) => m,
                    Err(e) => return Err(e),
                };
                let ft = FileType::from_mode(m.mode);
                if opts.directory && !ft.is_dir() {
                    return Err(enotdir("not a directory"));
                }
                if ft.is_dir() && opts.write && !opts.directory {
                    return Err(eisdir("is a directory"));
                }
                if opts.truncate {
                    if ft.is_file() {
                        match self.truncate_data(ino, 0) {
                            Ok(_) => {},
                            Err(e) => return Err(e),
                        }
                    } else if strict {
                        return Err(einval("truncate on non-file"));
                    }
                }
                Ok(ino)
            },
            None => {
                if !opts.create && !opts.create_new {
                    return Err(enoent("no such file or directory"));
                }
                let mode: u16 = S_IFREG | apply_umask(opts.mode, umask);
                match self.create_child(
                    x.parent,
                    x.name.as_slice(),
                    mode,
                    creds.fsuid,
                    creds.fsgid,
                    0,
                    creds,
                ) {
                    Ok(ino) => Ok(ino),
                    Err(e) => {
                        proof {
                            lemma_spared_on(
                                v,
                                v,
                                self@,
                                set![x.parent, next_ino(v)],
                                touched,
                            );
                        }
                        Err(e)
                    },
                }
            },
        }
    }

    /// Opens a file, and counts one more handle on it.
    pub(crate) fn open_counted(
        &mut self,
        root: u64,
        cwd: u64,
        creds: &Creds,
        path: UnixPath,
        opts: &OpenOptions,
        umask: u16,
        strict: bool,
    ) -> (r: Result<u64>)
        requires
            old(self).wf(),
        ensures
            final(self).wf(),
            keeps(*old(self), *final(self)),
            done(
                *old(self),
                *final(self),
                open_handle(
                    old(self)@,
                    Place { root, cwd, creds: creds@ },
                    path@,
                    *opts,
                    umask,
                    strict,
                ),
                r,
                open_room(old(self)@, Place { root, cwd, creds: creds@ }, path@, *opts, umask),
                fresh(*opts),
            ),
            r is Err ==> spared(
                old(self)@,
                final(self)@,
                reached(
                    old(self)@,
                    Place { root, cwd, creds: creds@ },
                    path@,
                    !opts.nofollow,
                ),
            ),
    {
        proof {
            lemma_open_spares(
                self@,
                Place { root, cwd, creds: creds@ },
                path@,
                *opts,
                umask,
                strict,
            );
        }
        let ino = match self.open_node(root, cwd, creds, path, opts, umask, strict) {
            Ok(ino) => ino,
            Err(e) => return Err(e),
        };
        match self.inc_open(ino) {
            Ok(_) => Ok(ino),
            Err(e) => Err(e),
        }
    }
}

/// A handle on a file. A handle that is no longer used is closed with [`File::close`].
#[derive(Debug)]
pub struct File {
    pub ino: u64,
    pub flags: i32,
    pub pos: u64,
}

/// What a read at the position of a handle returns and changes.
pub open spec fn read_did(
    f0: File,
    f1: File,
    s0: Inner,
    s1: Inner,
    b0: Seq<u8>,
    b1: Seq<u8>,
    r: Result<usize>,
) -> bool {
    &&& f1 == (File { pos: f1.pos, ..f0 })
    &&& f1.pos == f0.pos + (match r {
        Ok(n) => n as int,
        Err(_) => 0,
    })
    &&& if !can_read(f0.flags) {
        b1 == b0 && (r matches Err(e) && e.is(EBADF))
    } else {
        read_agrees(s0, s1, f0.ino, f0.pos, b0, b1, r)
    }
}

/// What a write at the position of a handle returns and changes.
pub open spec fn wrote_did(f0: File, f1: File, s0: Inner, s1: Inner, buf: Seq<u8>, r: Result<usize>) -> bool {
    &&& f1 == (File { pos: f1.pos, ..f0 })
    &&& f1.pos == match r {
        Ok(n) => f0.write_pos(s0@) + n,
        Err(_) => f0.pos as int,
    }
    &&& if !can_write(f0.flags) {
        s1@ == s0@ && (r matches Err(e) && e.is(EBADF))
    } else if f0.flags & O_APPEND != 0 && !s0@.nodes.contains_key(f0.ino) {
        s1@ == s0@.at(s1@.clock) && (r matches Err(e) && e.is(EIO))
    } else {
        write_agrees(at_time(s0, s1@.clock), s1, f0.ino, f0.write_pos(s0@) as u64, buf, r)
    }
}

/// What a seek returns and changes.
pub open spec fn seek_did(f0: File, f1: File, v: FsView, pos: SeekFrom, r: Result<u64>) -> bool {
    let to = seek_to(pos, f0.pos, v.nodes[f0.ino].data.len() as int);
    &&& f1 == (File { pos: f1.pos, ..f0 })
    &&& match r {
        Ok(p) => v.nodes.contains_key(f0.ino) && to >= 0 && p == to % 0x1_0000_0000_0000_0000
            && f1.pos == p,
        Err(e) => f1.pos == f0.pos && if !v.nodes.contains_key(f0.ino) {
            e.is(EIO)
        } else {
            to < 0 && e.is(EINVAL)
        },
    }
}

impl File {
    pub(crate) fn new(fs: &mut LinuxFile, ino: u64, flags: i32) -> (r: Result<File>)
        requires
            old(fs).wf(),
        ensures
            final(fs).wf(),
            keeps(old(fs).inner, final(fs).inner),
            final(fs)@ == inc_open_op(old(fs)@, ino).0,
            match r {
                Ok(f) => inc_open_op(old(fs)@, ino).1 is Ok && f == (File { ino, flags, pos: 0 }),
                Err(e) => same_outcome(inc_open_op(old(fs)@, ino).1, Err(e)),
            },
    {
        match fs.inner.inc_open(ino) {
            Ok(_) => Ok(File { ino, flags, pos: 0 }),
            Err(e) => Err(e),
        }
    }

    /// Closes the handle. The last handle on a file without a name removes the file.
    pub fn close(self, fs: &mut LinuxFile)
        requires
            old(fs).wf(),
        ensures
            final(fs).wf(),
            keeps(old(fs).inner, final(fs).inner),
            final(fs)@ == dec_open_op(old(fs)@, self.ino).0,
    {
        let _ = fs.inner.dec_open(self.ino);
    }

    pub fn ino(&self) -> (n: u64)
        ensures
            n == self.ino,
    {
        self.ino
    }

    pub fn metadata(&self, fs: &LinuxFile) -> (r: Result<Metadata>)
        requires
            fs.wf(),
        ensures
            match r {
                Ok(m) => fs@.nodes.contains_key(self.ino) && m.stat == node_stat(
                    self.ino,
                    fs@.nodes[self.ino],
                    fs.inner.inodes@[self.ino].blocks,
                ),
                Err(e) => !fs@.nodes.contains_key(self.ino) && e.is(EIO),
            },
    {
        match self.stat(fs) {
            Ok(stat) => Ok(Metadata { stat }),
            Err(e) => Err(e),
        }
    }

    pub fn stat(&self, fs: &LinuxFile) -> (r: Result<Stat>)
        requires
            fs.wf(),
        ensures
            match r {
                Ok(st) => fs@.nodes.contains_key(self.ino) && st == node_stat(
                    self.ino,
                    fs@.nodes[self.ino],
                    fs.inner.inodes@[self.ino].blocks,
                ),
                Err(e) => !fs@.nodes.contains_key(self.ino) && e.is(EIO),
            },
    {
        fs.inner.stat_ino(self.ino)
    }

    /// Sets the length of the file.
    pub fn set_len(&self, fs: &mut LinuxFile, size: u64) -> (r: Result<()>)
        requires
            old(fs).wf(),
        ensures
            final(fs).wf(),
            keeps(old(fs).inner, final(fs).inner),
            if !can_write(self.flags) {
                final(fs)@ == old(fs)@ && (r matches Err(e) && e.is(EBADF))
            } else {
                truncate_agrees(
                    at_time(old(fs).inner, final(fs)@.clock),
                    final(fs).inner,
                    self.ino,
                    size,
                    r,
                )
            },
            r is Ok && size < old(fs)@.nodes[self.ino].data.len() ==> given_back(
                at_time(old(fs).inner, final(fs)@.clock),
                final(fs).inner,
                self.ino,
                size,
            ),
    {
        match self.require_write() {
            Ok(_) => {},
            Err(e) => return Err(e),
        }
        fs.tick();
        fs.inner.truncate_data(self.ino, size)
    }

    pub fn set_permissions(&self, fs: &mut LinuxFile, perm: Permissions) -> (r: Result<()>)
        requires
            old(fs).wf(),
        ensures
            final(fs).wf(),
            keeps(old(fs).inner, final(fs).inner),
            ({
                let want = chmod_op(
                    old(fs)@.at(final(fs)@.clock),
                    self.ino,
                    perm.mode,
                    creds_of(0, 0),
                );
                final(fs)@ == want.0 && same_outcome(want.1, r)
            }),
    {
        fs.tick();
        let creds = Creds::root();
        fs.inner.chmod(self.ino, perm.mode, &creds)
    }

    /// Writes everything back, and has the host write the image to its disk.
    pub fn sync_all(&self, fs: &mut LinuxFile) -> (r: Result<()>)
        requires
            old(fs).wf(),
        ensures
            final(fs).wf(),
            final(fs)@ == old(fs)@,
            holds(old(fs).inner, final(fs).inner),
            bare(old(fs).inner) ==> bare(final(fs).inner),
            !old(fs)@.writable ==> final(fs).inner.vol.image@ == old(fs).inner.vol.image@,
            match r {
                Ok(_) => {
                    &&& ends_in_sync(final(fs).inner)
                    &&& old(fs)@.writable ==> rests(final(fs).inner)
                    &&& old(fs)@.writable && final(fs).inner.sound() && clear(final(fs).inner)
                        ==> reopens(final(fs).inner, final(fs).inner.vol.image@)
                    &&& old(fs)@.writable && !(old(fs).inner.sync_mode is Deferred) ==> journaled(
                        old(fs).inner,
                        final(fs).inner,
                    )
                },
                Err(e) => old(fs)@.writable && flush_failed(old(fs).inner, final(fs).inner, e),
            },
    {
        fs.inner.sync()
    }

    /// Writes file data back, and has the host write it to its disk.
    pub fn sync_data(&self, fs: &mut LinuxFile) -> (r: Result<()>)
        requires
            old(fs).wf(),
        ensures
            final(fs).wf(),
            final(fs)@ == old(fs)@,
            holds(old(fs).inner, final(fs).inner),
            bare(old(fs).inner) ==> bare(final(fs).inner),
            match r {
                Ok(_) => final(fs).inner.record_cache is None && final(fs).inner.vol.clean()
                    && final(fs).inner.vol.image.log@.len() > 0
                    && final(fs).inner.vol.image.log@.last() is SyncData,
                Err(e) => e.is(ENOSPC) && old(fs).inner.full(0),
            },
    {
        fs.inner.flush_cache_data()
    }

    /// Writes file data back.
    pub fn flush(&mut self, fs: &mut LinuxFile) -> (r: Result<()>)
        requires
            old(fs).wf(),
        ensures
            final(fs).wf(),
            final(fs)@ == old(fs)@,
            keeps(old(fs).inner, final(fs).inner),
            *final(self) == *old(self),
            match r {
                Ok(_) => final(fs).inner.record_cache is None && final(fs).inner.vol.clean(),
                Err(e) => e.is(ENOSPC) && old(fs).inner.full(0),
            },
    {
        fs.inner.flush_cache()
    }

    /// One more handle on the same file, at its start.
    pub fn try_clone(&self, fs: &mut LinuxFile) -> (r: Result<File>)
        requires
            old(fs).wf(),
        ensures
            final(fs).wf(),
            keeps(old(fs).inner, final(fs).inner),
            final(fs)@ == inc_open_op(old(fs)@, self.ino).0,
            match r {
                Ok(f) => inc_open_op(old(fs)@, self.ino).1 is Ok && f == (File {
                    ino: self.ino,
                    flags: self.flags,
                    pos: 0,
                }),
                Err(e) => same_outcome(inc_open_op(old(fs)@, self.ino).1, Err(e)),
            },
    {
        File::new(fs, self.ino, self.flags)
    }

    fn require_read(&self) -> (r: Result<()>)
        ensures
            match r {
                Ok(_) => can_read(self.flags),
                Err(e) => !can_read(self.flags) && e.is(EBADF),
            },
    {
        if self.flags & O_ACCMODE == O_WRONLY {
            Err(ebadf())
        } else {
            Ok(())
        }
    }

    fn require_write(&self) -> (r: Result<()>)
        ensures
            match r {
                Ok(_) => can_write(self.flags),
                Err(e) => !can_write(self.flags) && e.is(EBADF),
            },
    {
        if self.flags & O_ACCMODE == O_RDONLY {
            Err(ebadf())
        } else {
            Ok(())
        }
    }

    /// Reads from byte `offset` on, as much as there is and fits into `buf`.
    pub fn read_at(&self, fs: &mut LinuxFile, buf: &mut [u8], offset: u64) -> (r: Result<usize>)
        requires
            old(fs).wf(),
        ensures
            final(fs).wf(),
            final(fs)@ == old(fs)@,
            keeps(old(fs).inner, final(fs).inner),
            if !can_read(self.flags) {
                final(buf)@ == old(buf)@ && (r matches Err(e) && e.is(EBADF))
            } else {
                read_agrees(
                    old(fs).inner,
                    final(fs).inner,
                    self.ino,
                    offset,
                    old(buf)@,
                    final(buf)@,
                    r,
                )
            },
    {
        match self.require_read() {
            Ok(_) => {},
            Err(e) => return Err(e),
        }
        fs.inner.read_data(self.ino, offset, buf)
    }

    /// Writes `buf` at byte `offset`.
    pub fn write_at(&self, fs: &mut LinuxFile, buf: &[u8], offset: u64) -> (r: Result<usize>)
        requires
            old(fs).wf(),
        ensures
            final(fs).wf(),
            keeps(old(fs).inner, final(fs).inner),
            if !can_write(self.flags) {
                final(fs)@ == old(fs)@ && (r matches Err(e) && e.is(EBADF))
            } else {
                write_agrees(
                    at_time(old(fs).inner, final(fs)@.clock),
                    final(fs).inner,
                    self.ino,
                    offset,
                    buf@,
                    r,
                )
            },
    {
        match self.require_write() {
            Ok(_) => {},
            Err(e) => return Err(e),
        }
        fs.tick();
        fs.inner.write_data(self.ino, offset, buf)
    }

    /// Reads from the position of the handle on, and moves it behind what was read.
    pub fn read(&mut self, fs: &mut LinuxFile, buf: &mut [u8]) -> (r: Result<usize>)
        requires
            old(fs).wf(),
        ensures
            final(fs).wf(),
            final(fs)@ == old(fs)@,
            keeps(old(fs).inner, final(fs).inner),
            read_did(
                *old(self),
                *final(self),
                old(fs).inner,
                final(fs).inner,
                old(buf)@,
                final(buf)@,
                r,
            ),
    {
        match self.require_read() {
            Ok(_) => {},
            Err(e) => return Err(e),
        }
        let ghost s0 = fs.inner;
        match fs.inner.read_data(self.ino, self.pos, buf) {
            Ok(n) => {
                proof {
                    assert(s0.inodes@.contains_key(self.ino));
                }
                self.pos = self.pos + n as u64;
                Ok(n)
            },
            Err(e) => Err(e),
        }
    }

    /// Where the next write goes.
    pub open spec fn write_pos(&self, v: FsView) -> int {
        if self.flags & O_APPEND != 0 {
            v.nodes[self.ino].data.len() as int
        } else {
            self.pos as int
        }
    }

    /// Writes at the position of the handle, or at the end of the file where it was opened so,
    /// and moves the position behind what was written.
    pub fn write(&mut self, fs: &mut LinuxFile, buf: &[u8]) -> (r: Result<usize>)
        requires
            old(fs).wf(),
        ensures
            final(fs).wf(),
            keeps(old(fs).inner, final(fs).inner),
            wrote_did(*old(self), *final(self), old(fs).inner, final(fs).inner, buf@, r),
    {
        match self.require_write() {
            Ok(_) => {},
            Err(e) => return Err(e),
        }
        fs.tick();
        let off: u64 = if self.flags & O_APPEND != 0 {
            match fs.inner.get_inode(self.ino) {
                Ok(i) => i.size,
                Err(e) => return Err(e),
            }
        } else {
            self.pos
        };
        match fs.inner.write_data(self.ino, off, buf) {
            Ok(n) => {
                self.pos = off + n as u64;
                Ok(n)
            },
            Err(e) => Err(e),
        }
    }

    /// Writes all of `buf`.
    pub fn write_all(&mut self, fs: &mut LinuxFile, buf: &[u8]) -> (r: Result<()>)
        requires
            old(fs).wf(),
        ensures
            final(fs).wf(),
            keeps(old(fs).inner, final(fs).inner),
            *final(self) == (File { pos: final(self).pos, ..*old(self) }),
            if buf@.len() == 0 {
                *final(fs) == *old(fs) && *final(self) == *old(self) && r is Ok
            } else if !can_write(old(self).flags) {
                final(fs)@ == old(fs)@ && (r matches Err(e) && e.is(EBADF))
            } else if old(self).flags & O_APPEND != 0 && !old(fs)@.nodes.contains_key(
                old(self).ino,
            ) {
                final(fs)@ == old(fs)@.at(final(fs)@.clock) && (r matches Err(e) && e.is(EIO))
            } else {
                let off = old(self).write_pos(old(fs)@) as u64;
                &&& r is Ok ==> final(self).pos == off + buf@.len()
                &&& write_agrees(
                    at_time(old(fs).inner, final(fs)@.clock),
                    final(fs).inner,
                    old(self).ino,
                    off,
                    buf@,
                    match r {
                        Ok(_) => Ok(buf.len()),
                        Err(e) => Err(e),
                    },
                )
            },
    {
        if buf.len() == 0 {
            return Ok(());
        }
        match self.write(fs, buf) {
            Ok(_) => Ok(()),
            Err(e) => Err(e),
        }
    }

    /// Appends to `out` what lies behind the position of the handle, and moves it to the end.
    pub fn read_to_end(&mut self, fs: &mut LinuxFile, out: &mut Vec<u8>) -> (r: Result<usize>)
        requires
            old(fs).wf(),
        ensures
            final(fs).wf(),
            final(fs)@ == old(fs)@,
            keeps(old(fs).inner, final(fs).inner),
            *final(self) == (File { pos: final(self).pos, ..*old(self) }),
            match r {
                Ok(n) => {
                    let data = old(fs)@.nodes[old(self).ino].data;
                    let rest = if old(self).pos < data.len() {
                        data.skip(old(self).pos as int)
                    } else {
                        Seq::empty()
                    };
                    &&& can_read(old(self).flags)
                    &&& old(fs)@.nodes.contains_key(old(self).ino)
                    &&& final(out)@ == old(out)@ + rest
                    &&& n == rest.len()
                    &&& final(self).pos == old(self).pos + n
                },
                Err(e) => {
                    &&& final(out)@ == old(out)@
                    &&& final(self).pos == old(self).pos
                    &&& if !can_read(old(self).flags) {
                        e.is(EBADF)
                    } else if !old(fs)@.nodes.contains_key(old(self).ino) {
                        e.is(EIO)
                    } else {
                        ||| e.is(EOVERFLOW) && old(fs)@.nodes[old(self).ino].data.len()
                            - old(self).pos > usize::MAX
                        ||| storage_failed(old(fs).inner, e, 0, 0)
                    }
                },
            },
    {
        match self.require_read() {
            Ok(_) => {},
            Err(e) => return Err(e),
        }
        let size: u64 = match fs.inner.get_inode(self.ino) {
            Ok(i) => i.size,
            Err(e) => return Err(e),
        };
        if size <= self.pos {
            assert(old(out)@ + Seq::<u8>::empty() =~= old(out)@);
            return Ok(0);
        }
        let left: u64 = size - self.pos;
        if left > usize::MAX as u64 {
            return Err(Error::from_errno(EOVERFLOW));
        }
        let ghost data = fs@.nodes[self.ino].data;
        let mut buf: Vec<u8> = zero_vec(left as usize);
        let n = match self.read(fs, buf.as_mut_slice()) {
            Ok(n) => n,
            Err(e) => return Err(e),
        };
        assert(buf@ =~= data.skip(old(self).pos as int));
        append(out, buf.as_slice());
        Ok(n)
    }

    /// Moves the position of the handle.
    pub fn seek(&mut self, fs: &LinuxFile, pos: SeekFrom) -> (r: Result<u64>)
        requires
            fs.wf(),
        ensures
            seek_did(*old(self), *final(self), fs@, pos, r),
    {
        let size: u64 = match fs.inner.get_inode(self.ino) {
            Ok(i) => i.size,
            Err(e) => return Err(e),
        };
        let new: i128 = match pos {
            SeekFrom::Start(o) => o as i128,
            SeekFrom::Current(o) => self.pos as i128 + o as i128,
            SeekFrom::End(o) => size as i128 + o as i128,
        };
        if new < 0 {
            return Err(einval("negative seek"));
        }
        self.pos = (new % 0x1_0000_0000_0000_0000) as u64;
        Ok(self.pos)
    }
}

} // verus!
