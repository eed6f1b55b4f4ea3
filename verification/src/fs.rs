//! High-level API in the manner of `std::fs`, bound to one image.

use vstd::prelude::*;
use vstd::string::*;
use vstd::utf8::*;

use crate::allocator::run_blocks;
use crate::attrs::bytes_out;
use crate::bytes::{get_u64, u64_at};
use crate::calls::{
    access_at, canonical, chmod_at, chown_at, compression_at, copy_at, copy_at_room, create_at,
    create_at_room, find, find_file, fresh, getxattr_at, lemma_close_spares, lemma_create_clock,
    lemma_create_spares, lemma_dir_room, lemma_items_room, lemma_items_step, lemma_link_clock,
    lemma_mkdir_all_clock, lemma_open_clock, lemma_open_spares, lemma_remove_all_clock,
    lemma_remove_room, lemma_rename_clock, lemma_unlink_clock, lemma_whole_clock,
    lemma_whole_spares, link_at, link_at_room, listxattr_at, made_first, mkdir_all, mkdir_at,
    mkdir_room, mkdir_there, name_of, no_value, node_stat, open_handle, open_room, path_up, reached,
    read_at_path, read_dir_at, read_link_at, reading, real_items, remove_all, remove_all_room,
    remove_entry, remove_entry_room, remove_items, remove_items_room, removexattr_at, rename_at,
    rename_at_room, rewriting, rmdir_at, set_compression_at, set_times_at, setxattr_at, stat_at,
    symlink_at, top, truncate_at, unlink_at, unlink_at_room, write_at_path, write_at_room, Place,
};
use crate::compress::Compression;
use crate::context::{new_context, Context};
use crate::data::{done, storage_failed};
use crate::dir::{items, DirEntry, DirItem};
use crate::disk::{clear, disk_super};
use crate::error::{
    eacces, ebusy, eexist, einval, eio, eisdir, enoent, Error, Result, EEXIST, EFBIG, EINVAL, EIO,
    ENOENT, ENOSPC,
};
use crate::file::{at_time, flags_of, File, OpenOptions, ReadDir};
use crate::flush::{ends_in_sync, flush_failed, journaled, rests};
use crate::format::{BLOCK_SIZE, ROOT_INO};
use crate::inner::{bare, holds, hushed, keeps, table_capacity, Inner};
use crate::model::FsView;
use crate::mount::{can_create, made_with, new_volume};
use crate::names::{found_out, lemma_ino_new, Resolved};
use crate::open::{opened, reopens, stands_for};
use crate::ops::{
    cut_room, dec_open_op, directories, left_over, lemma_child_spares, lemma_directories,
    lemma_left_on, lemma_left_same, lemma_spared_on, lemma_spared_same, next_ino, room,
    same_outcome, same_outside, spared, under_name, Outcome,
};
use crate::options::{default_options, CreateOptions};
use crate::path::{
    dot_dot, dot_dot_name, is_dot, is_dot_dot, joined, root_path, UnixPath, UnixPathBuf, NAME_MAX,
};
use crate::store::{after_ops, max_blocks, HostOp};
use crate::text::{lossy_text, utf8_lossy, utf8_string};
use crate::types::{
    apply_umask, check_access, Access, Creds, FileTimes, FileType, Metadata, Permissions, Stat,
    StatFs, Timespec, R_OK, S_IFDIR, S_IFIFO, S_IFLNK, W_OK, X_OK,
};
use crate::cache::cache_size;

verus! {

broadcast use vstd::std_specs::hash::group_hash_axioms;

/// A mounted Linux filesystem stored in a single image.
///
/// The image grows when the filesystem needs space and shrinks when trailing blocks are freed.
pub struct LinuxFile {
    pub inner: Inner,
}

impl View for LinuxFile {
    type V = FsView;

    open spec fn view(&self) -> FsView {
        self.inner@
    }
}

/// A directory was made where the calls for those that lead to it left a volume, whatever they
/// returned.
pub open spec fn tried_on(
    up: (LinuxFile, Result<()>),
    f1: LinuxFile,
    path: Seq<u8>,
    r: Result<()>,
) -> bool {
    ran(up.0, f1, mkdir_there(up.0@, top(), path), r, mkdir_room(up.0@, top(), path), 1)
}

/// The storage below failed while a directory and those that lead to it were made, on volume `f0`;
/// the ones that were left were tried on what was there by then.
pub open spec fn cut_short(f0: LinuxFile, f1: LinuxFile, path: Seq<u8>, r: Result<()>) -> bool
    decreases path.len(),
{
    exists|up: (LinuxFile, Result<()>)| #[trigger]
        tried_on(up, f1, path, r) && (match made_first(path) {
            None => up.0 == f0,
            Some(p) => climbed(f0, up.0, p, up.1),
        }) && ((r matches Err(e) && storage_failed(
            up.0.inner,
            e,
            mkdir_room(up.0@, top(), path),
            1,
        )) || (made_first(path) matches Some(p) && p.len() < path.len() && cut_short(
            f0,
            up.0,
            p,
            up.1,
        )))
}

/// The directories that lead to `path` and the one there were tried one after the other, from
/// volume `f0` on.
pub open spec fn climbed(f0: LinuxFile, f1: LinuxFile, path: Seq<u8>, r: Result<()>) -> bool
    decreases path.len(),
{
    if path.len() == 0 || path == root_path() {
        f1 == f0 && r is Ok
    } else {
        exists|up: (LinuxFile, Result<()>)| #[trigger]
            tried_on(up, f1, path, r) && (match made_first(path) {
                None => up.0 == f0,
                Some(p) => p.len() < path.len() && climbed(f0, up.0, p, up.1),
            })
    }
}

/// A directory and those that lead to it were made as `want` says, or the storage below failed.
/// The volume stays consistent, and its records stay readable.
pub open spec fn made_all(
    f0: LinuxFile,
    f1: LinuxFile,
    want: (FsView, Outcome<()>),
    path: Seq<u8>,
    r: Result<()>,
) -> bool {
    &&& f1.wf()
    &&& keeps(f0.inner, f1.inner)
    &&& climbed(f0, f1, path, r)
    &&& f1@ == want.0 && same_outcome(want.1, r) || cut_short(f0, f1, path, r)
}

impl LinuxFile {
    /// The mounted volume is consistent.
    pub open spec fn wf(&self) -> bool {
        self.inner.wf()
    }

    /// Every compressed record on the volume can be unpacked.
    pub open spec fn sound(&self) -> bool {
        self.inner.sound()
    }
}

/// A call that takes up to `room` blocks did what `want` says and returned what `want` says, or the
/// storage below failed. The volume stays consistent, and its records stay readable.
pub open spec fn ran<T>(
    f0: LinuxFile,
    f1: LinuxFile,
    want: (FsView, Outcome<T>),
    got: std::result::Result<T, Error>,
    room: int,
    new: int,
) -> bool {
    &&& f1.wf()
    &&& keeps(f0.inner, f1.inner)
    &&& done(f0.inner, f1.inner, want, got, room, new)
}

/// A call changed nothing and returned what `want` says, or the storage below failed.
pub open spec fn looked<T>(
    f0: LinuxFile,
    f1: LinuxFile,
    want: Outcome<T>,
    got: std::result::Result<T, Error>,
) -> bool {
    &&& ran(f0, f1, (f0@, want), got, 0, 0)
    &&& f1@ == f0@
}

/// A result with its path as a sequence.
pub open spec fn path_out(r: Result<UnixPathBuf>) -> std::result::Result<Seq<u8>, Error> {
    match r {
        Ok(p) => Ok(p@),
        Err(e) => Err(e),
    }
}

/// A result with its entries as a sequence.
pub open spec fn entries_out(r: Result<ReadDir>) -> std::result::Result<Seq<DirItem>, Error> {
    match r {
        Ok(d) => Ok(d@),
        Err(e) => Err(e),
    }
}

impl LinuxFile {
    /// Makes a new volume with the default options.
    pub fn create() -> (r: Result<Self>)
        ensures
            match r {
                Ok(f) => {
                    &&& can_create(default_options())
                    &&& rests(f.inner)
                    &&& f.sound()
                    &&& f@ == new_volume(default_options(), f@.clock)
                    &&& f@.clock.normal()
                    &&& f.inner.vol.lost@ == Set::<int>::empty()
                    &&& made_with(f.inner, default_options())
                },
                Err(e) => !can_create(default_options()) && e.is(ENOSPC),
            },
    {
        Self::create_with(CreateOptions::default())
    }

    /// Makes a new volume; fails with `ENOSPC` where an image cannot be that large.
    pub fn create_with(opts: CreateOptions) -> (r: Result<Self>)
        ensures
            match r {
                Ok(f) => {
                    &&& can_create(opts)
                    &&& rests(f.inner)
                    &&& f.sound()
                    &&& f@ == new_volume(opts, f@.clock)
                    &&& f@.clock.normal()
                    &&& f.inner.vol.lost@ == Set::<int>::empty()
                    &&& made_with(f.inner, opts)
                },
                Err(e) => !can_create(opts) && e.is(ENOSPC),
            },
    {
        match Inner::create(&opts) {
            Ok(inner) => Ok(Self { inner }),
            Err(e) => Err(e),
        }
    }

    /// Mounts the volume that an image holds, for reading and writing.
    pub fn open(data: Vec<u8>) -> (r: Result<Self>)
        ensures
            match r {
                Ok(f) => opened(f.inner, data@, true) && f.inner.sync_mode == default_options().sync
                    && f.inner.vol.cache.capacity == cache_size(default_options().cache_blocks),
                Err(e) => {
                    &&& e.is(EFBIG) <==> data@.len() > max_blocks() * 4096
                    &&& e.is(EFBIG) || e.is(EIO) || e.is(ENOSPC)
                    &&& e.is(ENOSPC) ==> disk_super(data@) is Some
                    &&& forall|t: Inner| !reopens(t, data@)
                },
            },
            forall|t: Inner| #[trigger]
                reopens(t, data@) ==> r is Ok && stands_for(r->Ok_0.inner, t, data@),
    {
        Self::open_with(data, true, CreateOptions::default())
    }

    /// Mounts the volume that an image holds, for reading only.
    pub fn open_read_only(data: Vec<u8>) -> (r: Result<Self>)
        ensures
            match r {
                Ok(f) => opened(f.inner, data@, false) && f.inner.sync_mode == default_options().sync
                    && f.inner.vol.cache.capacity == cache_size(default_options().cache_blocks),
                Err(e) => {
                    &&& e.is(EFBIG) <==> data@.len() > max_blocks() * 4096
                    &&& e.is(EFBIG) || e.is(EIO) || e.is(ENOSPC)
                    &&& e.is(ENOSPC) ==> disk_super(data@) is Some
                    &&& forall|t: Inner| !reopens(t, data@)
                },
            },
            forall|t: Inner| #[trigger]
                reopens(t, data@) ==> r is Ok && stands_for(r->Ok_0.inner, t, data@),
    {
        Self::open_with(data, false, CreateOptions::default())
    }

    /// Mounts the volume that an image holds; of the options only the size of the cache and the
    /// sync mode matter.
    pub fn open_with(data: Vec<u8>, writable: bool, opts: CreateOptions) -> (r: Result<Self>)
        ensures
            match r {
                Ok(f) => opened(f.inner, data@, writable) && f.inner.sync_mode == opts.sync
                    && f.inner.vol.cache.capacity == cache_size(opts.cache_blocks),
                Err(e) => {
                    &&& e.is(EFBIG) <==> data@.len() > max_blocks() * 4096
                    &&& e.is(EFBIG) || e.is(EIO) || e.is(ENOSPC)
                    &&& e.is(ENOSPC) ==> disk_super(data@) is Some
                    &&& forall|t: Inner| !reopens(t, data@)
                },
            },
            forall|t: Inner| #[trigger]
                reopens(t, data@) ==> r is Ok && stands_for(r->Ok_0.inner, t, data@),
    {
        match Inner::open(data, writable, opts.cache_blocks, opts.sync) {
            Ok(inner) => Ok(Self { inner }),
            Err(e) => Err(e),
        }
    }

    /// The operations on the host file that were not performed yet.
    pub fn take_ops(&mut self) -> (ops: Vec<HostOp>)
        requires
            old(self).wf(),
        ensures
            final(self).wf(),
            final(self)@ == old(self)@,
            holds(old(self).inner, final(self).inner),
            bare(old(self).inner) ==> bare(final(self).inner),
            old(self).inner.idle() ==> final(self).inner.idle(),
            ops@ == old(self).inner.vol.image.log@,
            after_ops(old(self).inner.vol.image.base@, ops@) == old(self).inner.vol.image@,
            final(self).inner.vol.image@ == old(self).inner.vol.image@,
            final(self).inner.vol.image.base@ == old(self).inner.vol.image@,
            final(self).inner.vol.image.log@.len() == 0,
    {
        let ghost s0 = self.inner;
        let ops = self.inner.vol.image.take_ops();
        proof {
            let s1 = self.inner;
            assert forall|b: int| s1.vol.d(b) == #[trigger] s0.vol.d(b) by {}
            crate::data::lemma_vol_unchanged(s0, s1);
        }
        ops
    }
}

impl LinuxFile {
    /// Sets the clock to the present time.
    #[verifier::spinoff_prover]
    pub(crate) fn tick(&mut self)
        requires
            old(self).wf(),
        ensures
            final(self).wf(),
            final(self)@ == old(self)@.at(final(self)@.clock),
            final(self)@.clock.normal(),
            final(self).sound() <==> old(self).sound(),
            final(self).inner == (Inner { clock: final(self).inner.clock, ..old(self).inner }),
    {
        let ghost s0 = self.inner;
        self.inner.clock = Timespec::now();
        proof {
            let s1 = self.inner;
            assert(s1.super_ok());
            assert(s1.area_ok());
            assert(s1.inodes_ok());
            assert(s1.lists_ok());
            assert(s1.wf());
        }
    }

    /// Switches permission checks on or off.
    pub(crate) fn set_check_perm(&mut self, enable: bool)
        requires
            old(self).wf(),
        ensures
            final(self).wf(),
            keeps(old(self).inner, final(self).inner),
            final(self)@ == (FsView { check_perm: enable, ..old(self)@ }),
    {
        self.inner.check_perm = enable;
        proof {
            let s1 = self.inner;
            assert(s1.super_ok());
            assert(s1.area_ok());
            assert(s1.inodes_ok());
            assert(s1.lists_ok());
            assert(s1.wf());
        }
    }

    /// Process-like view: credentials, cwd, root, and a file-descriptor table.
    pub fn context(&self, creds: Creds) -> (c: Context)
        ensures
            c@ == new_context(creds@),
    {
        Context::new(creds)
    }

    /// Finds where a path leads, as the superuser.
    fn walk(&mut self, path: UnixPath, follow: bool) -> (r: Result<Resolved>)
        requires
            old(self).wf(),
        ensures
            looked(
                *old(self),
                *final(self),
                find(old(self)@, top(), path@, follow),
                found_out(r),
            ),
    {
        let creds = Creds::root();
        self.inner.walk(ROOT_INO, ROOT_INO, path, follow, &creds)
    }

    /// Finds the file that a path leads to, as the superuser.
    fn resolve(&mut self, path: UnixPath, follow: bool) -> (r: Result<u64>)
        requires
            old(self).wf(),
        ensures
            looked(*old(self), *final(self), find_file(old(self)@, top(), path@, follow), r),
    {
        match self.walk(path, follow) {
            Ok(x) => match x.ino {
                Some(ino) => Ok(ino),
                None => Err(enoent("no such file or directory")),
            },
            Err(e) => Err(e),
        }
    }

    /// Finds the inode that a path leads to, as the superuser.
    fn locate(&mut self, path: UnixPath, follow: bool) -> (r: Result<u64>)
        requires
            old(self).wf(),
        ensures
            looked(*old(self), *final(self), stat_at(old(self)@, top(), path@, follow), r),
    {
        match self.resolve(path, follow) {
            Ok(ino) => match self.inner.get_inode(ino) {
                Ok(_) => Ok(ino),
                Err(e) => Err(e),
            },
            Err(e) => Err(e),
        }
    }

    /// Writes everything back, and has the host write the image to its disk.
    pub fn sync(&mut self) -> (r: Result<()>)
        requires
            old(self).wf(),
        ensures
            final(self).wf(),
            final(self)@ == old(self)@,
            holds(old(self).inner, final(self).inner),
            bare(old(self).inner) ==> bare(final(self).inner),
            !old(self)@.writable ==> final(self).inner.vol.image@ == old(self).inner.vol.image@,
            match r {
                Ok(_) => {
                    &&& ends_in_sync(final(self).inner)
                    &&& old(self)@.writable ==> rests(final(self).inner)
                    &&& old(self)@.writable && final(self).inner.sound() && clear(final(self).inner)
                        ==> reopens(final(self).inner, final(self).inner.vol.image@)
                    &&& old(self)@.writable && !(old(self).inner.sync_mode is Deferred)
                        ==> journaled(old(self).inner, final(self).inner)
                },
                Err(e) => old(self)@.writable && flush_failed(old(self).inner, final(self).inner, e),
            },
    {
        self.inner.sync()
    }

    /// Writes everything back to the image, as before an unmount.
    pub fn flush_all(&mut self) -> (r: Result<()>)
        requires
            old(self).wf(),
        ensures
            final(self).wf(),
            final(self)@ == old(self)@,
            keeps(old(self).inner, final(self).inner),
            match r {
                Ok(_) => {
                    &&& old(self)@.writable ==> rests(final(self).inner)
                    &&& old(self)@.writable && old(self).inner.sync_mode is Full ==> ends_in_sync(
                        final(self).inner,
                    )
                    &&& old(self)@.writable && final(self).inner.sound() && clear(final(self).inner)
                        ==> reopens(final(self).inner, final(self).inner.vol.image@)
                    &&& old(self)@.writable && !(old(self).inner.sync_mode is Deferred)
                        ==> journaled(old(self).inner, final(self).inner)
                },
                Err(e) => old(self)@.writable && flush_failed(old(self).inner, final(self).inner, e),
            },
    {
        self.inner.flush_all()
    }

    /// Filesystem-wide default compression for new files.
    pub fn compression(&self) -> (r: Result<Compression>)
        ensures
            r matches Ok(c) && c == self.inner.default_compression,
            r matches Ok(c) && crate::compress::compression_code(c) == self@.default_compression,
    {
        Ok(self.inner.default_compression)
    }

    /// Logical 4 KiB blocks per compression record.
    pub fn record_blocks(&self) -> (r: Result<u32>)
        ensures
            r matches Ok(n) && n == self.inner.record_blocks,
    {
        Ok(self.inner.record_blocks)
    }

    /// Compression algorithm used for new writes to `path`.
    pub fn file_compression(&mut self, path: UnixPath) -> (r: Result<Compression>)
        requires
            old(self).wf(),
        ensures
            looked(*old(self), *final(self), compression_at(old(self)@, top(), path@), r),
    {
        let ino = match self.resolve(path, true) {
            Ok(ino) => ino,
            Err(e) => return Err(e),
        };
        match self.inner.meta(ino) {
            Ok(m) => Ok(Compression::from_u8(m.compression)),
            Err(e) => Err(e),
        }
    }

    /// Changes the algorithm used for future writes to `path`. Existing records are left as they
    /// are until they are overwritten.
    pub fn set_compression(&mut self, path: UnixPath, compression: Compression) -> (r: Result<()>)
        requires
            old(self).wf(),
        ensures
            final(self).wf(),
            holds(old(self).inner, final(self).inner),
            compression is Off && bare(old(self).inner) ==> bare(final(self).inner),
            hushed(old(self).inner, final(self).inner),
            done(
                old(self).inner,
                final(self).inner,
                set_compression_at(
                    old(self)@.at(final(self)@.clock),
                    top(),
                    path@,
                    compression,
                ),
                r,
                0,
                0,
            ),
            r is Err ==> final(self)@ == old(self)@.at(final(self)@.clock),
    {
        self.tick();
        match self.resolve(path, true) {
            Ok(ino) => self.inner.set_inode_compression(ino, compression),
            Err(e) => Err(e),
        }
    }

    /// Current size of the image in bytes.
    pub fn image_len(&self) -> (r: Result<u64>)
        requires
            self.wf(),
        ensures
            r matches Ok(n) && n == self.inner.vol.image@.len(),
    {
        Ok(self.inner.vol.image.len())
    }

    pub fn chmod(&mut self, path: UnixPath, mode: u16) -> (r: Result<()>)
        requires
            old(self).wf(),
        ensures
            ran(
                *old(self),
                *final(self),
                chmod_at(old(self)@.at(final(self)@.clock), top(), path@, mode),
                r,
                0,
                0,
            ),
            r is Err ==> final(self)@ == old(self)@.at(final(self)@.clock),
    {
        self.tick();
        match self.resolve(path, true) {
            Ok(ino) => {
                let creds = Creds::root();
                self.inner.chmod(ino, mode, &creds)
            },
            Err(e) => Err(e),
        }
    }

    pub fn set_permissions(&mut self, path: UnixPath, perm: Permissions) -> (r: Result<()>)
        requires
            old(self).wf(),
        ensures
            ran(
                *old(self),
                *final(self),
                chmod_at(old(self)@.at(final(self)@.clock), top(), path@, perm.mode),
                r,
                0,
                0,
            ),
            r is Err ==> final(self)@ == old(self)@.at(final(self)@.clock),
    {
        self.chmod(path, perm.mode)
    }

    pub fn chown(&mut self, path: UnixPath, uid: u32, gid: u32) -> (r: Result<()>)
        requires
            old(self).wf(),
        ensures
            ran(
                *old(self),
                *final(self),
                chown_at(old(self)@.at(final(self)@.clock), top(), path@, true, uid, gid),
                r,
                0,
                0,
            ),
            r is Err ==> final(self)@ == old(self)@.at(final(self)@.clock),
    {
        self.tick();
        match self.resolve(path, true) {
            Ok(ino) => {
                let creds = Creds::root();
                self.inner.chown(ino, Some(uid), Some(gid), &creds)
            },
            Err(e) => Err(e),
        }
    }

    /// `chown` that does not follow a last symbolic link.
    pub fn lchown(&mut self, path: UnixPath, uid: u32, gid: u32) -> (r: Result<()>)
        requires
            old(self).wf(),
        ensures
            ran(
                *old(self),
                *final(self),
                chown_at(old(self)@.at(final(self)@.clock), top(), path@, false, uid, gid),
                r,
                0,
                0,
            ),
            r is Err ==> final(self)@ == old(self)@.at(final(self)@.clock),
    {
        self.tick();
        match self.resolve(path, false) {
            Ok(ino) => {
                let creds = Creds::root();
                self.inner.chown(ino, Some(uid), Some(gid), &creds)
            },
            Err(e) => Err(e),
        }
    }

    pub fn set_times(&mut self, path: UnixPath, times: FileTimes) -> (r: Result<()>)
        requires
            old(self).wf(),
        ensures
            ran(
                *old(self),
                *final(self),
                set_times_at(old(self)@.at(final(self)@.clock), top(), path@, times),
                r,
                0,
                0,
            ),
            r is Err ==> final(self)@ == old(self)@.at(final(self)@.clock),
    {
        self.tick();
        match self.resolve(path, true) {
            Ok(ino) => self.inner.set_times(ino, times),
            Err(e) => Err(e),
        }
    }

    pub fn set_len(&mut self, path: UnixPath, size: u64) -> (r: Result<()>)
        requires
            old(self).wf(),
        ensures
            ran(
                *old(self),
                *final(self),
                truncate_at(old(self)@.at(final(self)@.clock), top(), path@, size),
                r,
                cut_room(),
                0,
            ),
            r is Err ==> final(self)@ == old(self)@.at(final(self)@.clock),
    {
        self.truncate(path, size)
    }

    pub fn truncate(&mut self, path: UnixPath, size: u64) -> (r: Result<()>)
        requires
            old(self).wf(),
        ensures
            ran(
                *old(self),
                *final(self),
                truncate_at(old(self)@.at(final(self)@.clock), top(), path@, size),
                r,
                cut_room(),
                0,
            ),
            r is Err ==> final(self)@ == old(self)@.at(final(self)@.clock),
    {
        self.tick();
        let ino = match self.locate(path, true) {
            Ok(ino) => ino,
            Err(e) => return Err(e),
        };
        let m = match self.inner.meta(ino) {
            Ok(m) => m,
            Err(e) => return Err(e),
        };
        if FileType::from_mode(m.mode).is_dir() {
            return Err(eisdir("is a directory"));
        }
        self.inner.truncate_data(ino, size)
    }

    pub fn getxattr(&mut self, path: UnixPath, name: &str) -> (r: Result<Vec<u8>>)
        requires
            old(self).wf(),
        ensures
            looked(
                *old(self),
                *final(self),
                getxattr_at(old(self)@, top(), path@, name.spec_bytes()),
                bytes_out(r),
            ),
    {
        match self.resolve(path, true) {
            Ok(ino) => self.inner.getxattr(ino, name.as_bytes()),
            Err(e) => Err(e),
        }
    }

    pub fn setxattr(&mut self, path: UnixPath, name: &str, value: &[u8], flags: u32) -> (r: Result<
        (),
    >)
        requires
            old(self).wf(),
        ensures
            ran(
                *old(self),
                *final(self),
                setxattr_at(
                    old(self)@.at(final(self)@.clock),
                    top(),
                    path@,
                    name.spec_bytes(),
                    value@,
                    flags,
                ),
                r,
                0,
                0,
            ),
            r is Err ==> final(self)@ == old(self)@.at(final(self)@.clock),
    {
        self.tick();
        match self.resolve(path, true) {
            Ok(ino) => self.inner.setxattr(ino, name.as_bytes(), value, flags),
            Err(e) => Err(e),
        }
    }

    pub fn removexattr(&mut self, path: UnixPath, name: &str) -> (r: Result<()>)
        requires
            old(self).wf(),
        ensures
            ran(
                *old(self),
                *final(self),
                removexattr_at(
                    old(self)@.at(final(self)@.clock),
                    top(),
                    path@,
                    name.spec_bytes(),
                ),
                r,
                0,
                0,
            ),
            r is Err ==> final(self)@ == old(self)@.at(final(self)@.clock),
    {
        self.tick();
        match self.resolve(path, true) {
            Ok(ino) => self.inner.removexattr(ino, name.as_bytes()),
            Err(e) => Err(e),
        }
    }
}

/// The texts that names are shown as.
pub open spec fn texts(r: Outcome<Seq<Seq<u8>>>) -> Outcome<Seq<Seq<char>>> {
    match r {
        Ok(ns) => Ok(Seq::new(ns.len(), |k: int| lossy_text(ns[k]))),
        Err(e) => Err(e),
    }
}

/// A result with its strings as sequences.
pub open spec fn strings_out(r: Result<Vec<String>>) -> std::result::Result<Seq<Seq<char>>, Error> {
    match r {
        Ok(v) => Ok(Seq::new(v@.len(), |k: int| v@[k]@)),
        Err(e) => Err(e),
    }
}

/// The `stat` of the file that a path leads to; volume `s` knows the blocks that it takes up.
pub open spec fn stat_path(v: FsView, s: Inner, at: Place, path: Seq<u8>, follow: bool) -> Outcome<
    Stat,
> {
    match stat_at(v, at, path, follow) {
        Ok(ino) => Ok(node_stat(ino, v.nodes[ino], s.inodes@[ino].blocks)),
        Err(e) => Err(e),
    }
}

/// A result with the `stat` in it.
pub open spec fn stat_out(r: Result<Metadata>) -> std::result::Result<Stat, Error> {
    match r {
        Ok(m) => Ok(m.stat),
        Err(e) => Err(e),
    }
}

/// Path `base` extended by the last of `names`, and so on to the first.
pub open spec fn joined_up(base: Seq<u8>, names: Seq<Seq<u8>>) -> Seq<u8>
    decreases names.len(),
{
    if names.len() == 0 {
        base
    } else {
        joined(joined_up(base, names.drop_first()), names[0])
    }
}

/// One more name above all others.
proof fn lemma_joined_up(base: Seq<u8>, names: Seq<Seq<u8>>, x: Seq<u8>)
    ensures
        joined_up(base, names.push(x)) == joined_up(joined(base, x), names),
    decreases names.len(),
{
    if names.len() == 0 {
        assert(names.push(x).drop_first() =~= names);
        assert(joined_up(base, names) == base);
    } else {
        assert(names.push(x).drop_first() =~= names.drop_first().push(x));
        lemma_joined_up(base, names.drop_first(), x);
    }
}

/// The names as sequences.
pub open spec fn name_views(s: Seq<Vec<u8>>) -> Seq<Seq<u8>> {
    Seq::new(s.len(), |k: int| s[k]@)
}

/// A path extended by names, where there is one.
pub open spec fn extended(base: Outcome<Seq<u8>>, names: Seq<Seq<u8>>) -> Outcome<Seq<u8>> {
    match base {
        Ok(b) => Ok(joined_up(b, names)),
        Err(e) => Err(e),
    }
}

/// Finds the first entry for inode `ino` that is neither `.` nor `..`.
fn entry_name(es: &Vec<DirEntry>, ino: u64) -> (r: Option<Vec<u8>>)
    ensures
        match r {
            Some(n) => name_of(items(es@), ino) == Some(n@),
            None => name_of(items(es@), ino) is None,
        },
{
    let n: usize = es.len();
    let ghost all = items(es@);
    let mut k: usize = 0;
    while k < n
        invariant
            n == es@.len(),
            k <= n,
            all == items(es@),
            name_of(all.take(k as int), ino) is None,
        decreases n - k,
    {
        proof {
            assert(all.take(k + 1).drop_last() =~= all.take(k as int));
            assert(all.take(k + 1).last() == es@[k as int]@);
        }
        if es[k].ino == ino && !is_dot(es[k].name.as_slice()) && !is_dot_dot(
            es[k].name.as_slice(),
        ) {
            let name = crate::bytes::copy_bytes(es[k].name.as_slice());
            proof {
                lemma_name_stays(all, ino, k + 1);
            }
            return Some(name);
        }
        k = k + 1;
    }
    assert(all.take(n as int) =~= all);
    None
}

/// The first entry stays the first where more follow.
proof fn lemma_name_stays(es: Seq<DirItem>, ino: u64, k: int)
    requires
        0 <= k <= es.len(),
        name_of(es.take(k), ino) is Some,
    ensures
        name_of(es, ino) == name_of(es.take(k), ino),
    decreases es.len() - k,
{
    if k == es.len() {
        assert(es.take(k) =~= es);
    } else {
        assert(es.take(k + 1).drop_last() =~= es.take(k));
        lemma_name_stays(es, ino, k + 1);
    }
}

impl LinuxFile {
    pub fn listxattr(&mut self, path: UnixPath) -> (r: Result<Vec<String>>)
        requires
            old(self).wf(),
        ensures
            looked(
                *old(self),
                *final(self),
                texts(listxattr_at(old(self)@, top(), path@)),
                strings_out(r),
            ),
    {
        let ino = match self.resolve(path, true) {
            Ok(ino) => ino,
            Err(e) => return Err(e),
        };
        let names = match self.inner.listxattr(ino) {
            Ok(n) => n,
            Err(e) => return Err(e),
        };
        let mut out: Vec<String> = Vec::new();
        let n: usize = names.len();
        let mut k: usize = 0;
        while k < n
            invariant
                n == names@.len(),
                k <= n,
                out@.len() == k,
                forall|j: int| 0 <= j < k ==> (#[trigger] out@[j])@ == lossy_text(names@[j]@),
            decreases n - k,
        {
            out.push(utf8_lossy(names[k].as_slice()));
            k = k + 1;
        }
        proof {
            let want = texts(listxattr_at(old(self)@, top(), path@))->Ok_0;
            assert(Seq::new(out@.len(), |j: int| out@[j]@) =~= want);
        }
        Ok(out)
    }

    pub fn stat(&mut self, path: UnixPath) -> (r: Result<Stat>)
        requires
            old(self).wf(),
        ensures
            looked(
                *old(self),
                *final(self),
                stat_path(old(self)@, final(self).inner, top(), path@, true),
                r,
            ),
    {
        match self.resolve(path, true) {
            Ok(ino) => self.inner.stat_ino(ino),
            Err(e) => Err(e),
        }
    }

    /// `stat` that does not follow a last symbolic link.
    pub fn lstat(&mut self, path: UnixPath) -> (r: Result<Stat>)
        requires
            old(self).wf(),
        ensures
            looked(
                *old(self),
                *final(self),
                stat_path(old(self)@, final(self).inner, top(), path@, false),
                r,
            ),
    {
        match self.resolve(path, false) {
            Ok(ino) => self.inner.stat_ino(ino),
            Err(e) => Err(e),
        }
    }

    pub fn metadata(&mut self, path: UnixPath) -> (r: Result<Metadata>)
        requires
            old(self).wf(),
        ensures
            looked(
                *old(self),
                *final(self),
                stat_path(old(self)@, final(self).inner, top(), path@, true),
                stat_out(r),
            ),
    {
        match self.stat(path) {
            Ok(stat) => Ok(Metadata { stat }),
            Err(e) => Err(e),
        }
    }

    /// Metadata of the path itself, though it be a symbolic link.
    pub fn symlink_metadata(&mut self, path: UnixPath) -> (r: Result<Metadata>)
        requires
            old(self).wf(),
        ensures
            looked(
                *old(self),
                *final(self),
                stat_path(old(self)@, final(self).inner, top(), path@, false),
                stat_out(r),
            ),
    {
        match self.lstat(path) {
            Ok(stat) => Ok(Metadata { stat }),
            Err(e) => Err(e),
        }
    }

    /// Whether a path leads to a file.
    pub fn path_exists(&mut self, path: UnixPath) -> (b: bool)
        requires
            old(self).wf(),
        ensures
            final(self).wf(),
            final(self)@ == old(self)@,
            keeps(old(self).inner, final(self).inner),
            b ==> stat_at(old(self)@, top(), path@, true) is Ok,
            !b ==> stat_at(old(self)@, top(), path@, true) is Err || old(self).inner.full(0)
                || !old(self).sound(),
    {
        match self.metadata(path) {
            Ok(_) => true,
            Err(_) => false,
        }
    }

    /// The path without links, `.` and `..`.
    pub fn canonicalize(&mut self, path: UnixPath) -> (r: Result<UnixPathBuf>)
        requires
            old(self).wf(),
        ensures
            looked(*old(self), *final(self), canonical(old(self)@, top(), path@), path_out(r)),
    {
        let x = match self.walk(path, true) {
            Ok(x) => x,
            Err(e) => return Err(e),
        };
        let ino = match x.ino {
            Some(ino) => ino,
            None => return Err(enoent("no such file or directory")),
        };
        let named = match self.inner.meta(ino) {
            Ok(m) => !FileType::from_mode(m.mode).is_dir(),
            Err(_) => false,
        };
        if !named {
            return self.path_of(ino);
        }
        let mut buf = match self.path_of(x.parent) {
            Ok(base) => base,
            Err(e) => return Err(e),
        };
        buf.push(UnixPath::from_bytes(x.name.as_slice()));
        Ok(buf)
    }

    /// The path of directory `target`.
    fn path_of(&mut self, target: u64) -> (r: Result<UnixPathBuf>)
        requires
            old(self).wf(),
        ensures
            looked(*old(self), *final(self), path_up(old(self)@, target, 4096), path_out(r)),
    {
        let ghost f0 = *self;
        let ghost v = self@;
        let up = dot_dot_name();
        let mut names: Vec<Vec<u8>> = Vec::new();
        let mut cur: u64 = target;
        let mut left: u32 = 4096;
        assert(name_views(names@) =~= Seq::<Seq<u8>>::empty());
        while left > 0 && cur != ROOT_INO
            invariant
                f0 == *old(self),
                v == f0@,
                self.wf(),
                self@ == v,
                keeps(f0.inner, self.inner),
                self.inner.load() <= f0.inner.load(),
                up@ == dot_dot(),
                left <= 4096,
                path_up(v, target, 4096) == extended(
                    path_up(v, cur, left as nat),
                    name_views(names@),
                ),
            decreases left,
        {
            let parent = match self.inner.dir_lookup(cur, up.as_slice()) {
                Ok(Some((p, _))) => p,
                Ok(None) => ROOT_INO,
                Err(e) => return Err(e),
            };
            let es = match self.inner.read_dir_entries(parent) {
                Ok(es) => es,
                Err(e) => return Err(e),
            };
            match entry_name(&es, cur) {
                None => return Err(enoent("orphaned inode")),
                Some(name) => {
                    proof {
                        let ns = name_views(names@);
                        let x = name@;
                        match path_up(v, parent, (left - 1) as nat) {
                            Ok(base) => {
                                lemma_joined_up(base, ns, x);
                            },
                            Err(_) => {},
                        }
                        assert(name_views(names@.push(name)) =~= ns.push(x));
                    }
                    names.push(name);
                },
            }
            cur = parent;
            left = left - 1;
        }
        let mut buf = UnixPathBuf::root();
        let ghost all = name_views(names@);
        assert(path_up(v, target, 4096) == Ok::<Seq<u8>, i32>(joined_up(buf@, all)));
        while names.len() > 0
            invariant
                joined_up(buf@, name_views(names@)) == joined_up(root_path(), all),
            decreases names@.len(),
        {
            let ghost ns = names@;
            match names.pop() {
                Some(name) => {
                    proof {
                        assert(name_views(ns) =~= name_views(names@).push(name@));
                        lemma_joined_up(buf@, name_views(names@), name@);
                    }
                    buf.push(UnixPath::from_bytes(name.as_slice()));
                },
                None => {},
            }
        }
        Ok(buf)
    }

    /// The target of a symbolic link.
    pub fn read_link(&mut self, path: UnixPath) -> (r: Result<UnixPathBuf>)
        requires
            old(self).wf(),
        ensures
            looked(*old(self), *final(self), read_link_at(old(self)@, top(), path@), path_out(r)),
    {
        let ino = match self.resolve(path, false) {
            Ok(ino) => ino,
            Err(e) => return Err(e),
        };
        let m = match self.inner.meta(ino) {
            Ok(m) => m,
            Err(e) => return Err(e),
        };
        if !FileType::from_mode(m.mode).is_symlink() {
            return Err(einval("not a symbolic link"));
        }
        match self.inner.read_whole(ino) {
            Ok(buf) => Ok(UnixPathBuf::from_bytes(buf)),
            Err(e) => Err(e),
        }
    }

    /// The entries of a directory.
    pub fn read_dir(&mut self, path: UnixPath) -> (r: Result<ReadDir>)
        requires
            old(self).wf(),
        ensures
            looked(*old(self), *final(self), read_dir_at(old(self)@, top(), path@), entries_out(r)),
    {
        let ino = match self.resolve(path, true) {
            Ok(ino) => ino,
            Err(e) => return Err(e),
        };
        match self.inner.read_dir_entries(ino) {
            Ok(es) => Ok(ReadDir::new(es)),
            Err(e) => Err(e),
        }
    }

    /// Whether the superuser may access a file in all ways that `mode` asks for.
    pub fn access(&mut self, path: UnixPath, mode: u32) -> (r: Result<()>)
        requires
            old(self).wf(),
        ensures
            looked(*old(self), *final(self), access_at(old(self)@, top(), path@, mode), r),
    {
        let ino = match self.locate(path, true) {
            Ok(ino) => ino,
            Err(e) => return Err(e),
        };
        let m = match self.inner.meta(ino) {
            Ok(m) => m,
            Err(e) => return Err(e),
        };
        let creds = Creds::root();
        if mode & R_OK != 0 && !check_access(m.mode, m.uid, m.gid, &creds, Access::Read) {
            return Err(eacces("access"));
        }
        if mode & W_OK != 0 && !check_access(m.mode, m.uid, m.gid, &creds, Access::Write) {
            return Err(eacces("access"));
        }
        if mode & X_OK != 0 && !check_access(m.mode, m.uid, m.gid, &creds, Access::Exec) {
            return Err(eacces("access"));
        }
        Ok(())
    }

    /// Sizes of the filesystem.
    pub fn statfs(&self) -> (r: Result<StatFs>)
        requires
            self.wf(),
        ensures
            r matches Ok(s) && s == (StatFs {
                block_size: BLOCK_SIZE,
                total_blocks: self.inner.vol.alloc.total_blocks,
                free_blocks: run_blocks(self.inner.vol.alloc.free@) as u64,
                avail_blocks: run_blocks(self.inner.vol.alloc.free@) as u64,
                total_inodes: table_capacity(self.inner.table()) as u64,
                free_inodes: (self@.free_inodes.len() + 16) as u64,
                namelen: NAME_MAX as u32,
                fsid: u64_at(self.inner.sb.uuid@, 0),
            }),
    {
        proof {
            lemma_free_count(self@.free_inodes, self@.next_inode);
            crate::table::lemma_limit();
        }
        let free = self.inner.vol.alloc.free_blocks();
        Ok(
            StatFs {
                block_size: BLOCK_SIZE,
                total_blocks: self.inner.vol.alloc.total_blocks(),
                free_blocks: free,
                avail_blocks: free,
                total_inodes: self.inner.inode_table_capacity(),
                free_inodes: self.inner.sb.free_inode_count + 16,
                namelen: NAME_MAX as u32,
                fsid: get_u64(self.inner.sb.uuid.as_slice(), 0),
            },
        )
    }
}

/// There are no more free numbers than numbers.
proof fn lemma_free_count(s: Seq<u64>, next: u64)
    requires
        s.no_duplicates(),
        forall|k: int| 0 <= k < s.len() ==> 2 <= #[trigger] s[k] < next,
    ensures
        s.len() <= next,
{
    let t = Seq::new(s.len(), |k: int| s[k] as int);
    assert(t.no_duplicates()) by {
        assert forall|i: int, j: int| 0 <= i < t.len() && 0 <= j < t.len() && i != j implies t[i]
            != t[j] by {
            assert(s[i] != s[j]);
        }
    }
    t.unique_seq_to_set();
    let all = vstd::set_lib::set_int_range(0, next as int);
    vstd::set_lib::lemma_int_range(0, next as int);
    assert(t.to_set().subset_of(all)) by {
        assert forall|x: int| t.to_set().contains(x) implies all.contains(x) by {
            let k = choose|k: int| 0 <= k < t.len() && t[k] == x;
            assert(s[k] < next);
        }
    }
    vstd::set_lib::lemma_len_subset(t.to_set(), all);
}

impl LinuxFile {
    /// Creates a file of any type where `path` leads to nothing yet.
    fn create_node(&mut self, path: UnixPath, follow: bool, mode: u16, rdev: u64) -> (r: Result<u64>)
        requires
            old(self).wf(),
        ensures
            ran(
                *old(self),
                *final(self),
                create_at(old(self)@, top(), path@, follow, mode, rdev),
                r,
                create_at_room(old(self)@, top(), path@, follow, mode),
                1,
            ),
            r is Err ==> spared(
                old(self)@,
                final(self)@,
                reached(old(self)@, top(), path@, follow),
            ),
            spared(old(self)@, final(self)@, directories(old(self)@)),
    {
        let ghost v = self@;
        let ghost touched = reached(v, top(), path@, follow);
        proof {
            lemma_spared_same(v, touched);
            lemma_spared_same(v, directories(v));
            lemma_ino_new(self.inner);
        }
        let x = match self.walk(path, follow) {
            Ok(x) => x,
            Err(e) => return Err(e),
        };
        if x.ino.is_some() {
            return Err(eexist("file exists"));
        }
        let creds = Creds::root();
        let r = self.inner.create_child(
            x.parent,
            x.name.as_slice(),
            mode,
            creds.fsuid,
            creds.fsgid,
            rdev,
            &creds,
        );
        proof {
            lemma_child_spares(
                v,
                x.parent,
                x.name@,
                mode,
                creds.fsuid,
                creds.fsgid,
                rdev,
                creds@,
            );
            if r is Err {
                lemma_spared_on(v, v, self@, set![x.parent, next_ino(v)], touched);
            }
        }
        r
    }

    pub fn create_dir(&mut self, path: UnixPath) -> (r: Result<()>)
        requires
            old(self).wf(),
        ensures
            ran(
                *old(self),
                *final(self),
                mkdir_at(old(self)@.at(final(self)@.clock), top(), path@, 0o777, 0o022),
                r,
                mkdir_room(old(self)@.at(final(self)@.clock), top(), path@),
                1,
            ),
            r is Err ==> spared(
                old(self)@.at(final(self)@.clock),
                final(self)@,
                reached(old(self)@.at(final(self)@.clock), top(), path@, true),
            ),
    {
        self.tick();
        proof {
            lemma_create_clock(self@, top(), path@, true, S_IFDIR | crate::types::masked_mode(0o777, 0o022), 0);
        }
        match self.create_node(path, true, S_IFDIR | apply_umask(0o777, 0o022), 0) {
            Ok(_) => Ok(()),
            Err(e) => Err(e),
        }
    }

    /// Creates a device node, a fifo, or a file of any other type.
    pub fn mknod(&mut self, path: UnixPath, mode: u16, dev: u64) -> (r: Result<()>)
        requires
            old(self).wf(),
        ensures
            ran(
                *old(self),
                *final(self),
                no_value(
                    create_at(old(self)@.at(final(self)@.clock), top(), path@, false, mode, dev),
                ),
                r,
                create_at_room(old(self)@.at(final(self)@.clock), top(), path@, false, mode),
                1,
            ),
            r is Err ==> spared(
                old(self)@.at(final(self)@.clock),
                final(self)@,
                reached(old(self)@.at(final(self)@.clock), top(), path@, false),
            ),
    {
        self.tick();
        proof {
            lemma_create_clock(self@, top(), path@, false, mode, dev);
        }
        match self.create_node(path, false, mode, dev) {
            Ok(_) => Ok(()),
            Err(e) => Err(e),
        }
    }

    pub fn mkfifo(&mut self, path: UnixPath, mode: u16) -> (r: Result<()>)
        requires
            old(self).wf(),
        ensures
            ran(
                *old(self),
                *final(self),
                no_value(
                    create_at(
                        old(self)@.at(final(self)@.clock),
                        top(),
                        path@,
                        false,
                        S_IFIFO | (mode & 0o777),
                        0,
                    ),
                ),
                r,
                create_at_room(old(self)@.at(final(self)@.clock), top(), path@, false, S_IFIFO | (mode & 0o777)),
                1,
            ),
            r is Err ==> spared(
                old(self)@.at(final(self)@.clock),
                final(self)@,
                reached(old(self)@.at(final(self)@.clock), top(), path@, false),
            ),
    {
        self.mknod(path, S_IFIFO | (mode & 0o777), 0)
    }

    /// Creates a symbolic link `link` to `target`.
    pub fn symlink(&mut self, target: UnixPath, link: UnixPath) -> (r: Result<()>)
        requires
            old(self).wf(),
        ensures
            ran(
                *old(self),
                *final(self),
                symlink_at(old(self)@.at(final(self)@.clock), top(), target@, link@),
                r,
                create_at_room(old(self)@.at(final(self)@.clock), top(), link@, false, S_IFLNK | 0o777) + room(target@.len() as int),
                1,
            ),
            r is Err ==> spared(
                old(self)@.at(final(self)@.clock),
                final(self)@,
                reached(old(self)@.at(final(self)@.clock), top(), link@, false),
            ),
    {
        self.tick();
        let ghost f1 = *self;
        proof {
            lemma_create_clock(self@, top(), link@, false, S_IFLNK | 0o777, 0);
            lemma_create_spares(self@, top(), link@, false, S_IFLNK | 0o777, 0);
        }
        let ino = match self.create_node(link, false, S_IFLNK | 0o777, 0) {
            Ok(ino) => ino,
            Err(e) => return Err(e),
        };
        let ghost w = self@;
        match self.inner.write_data(ino, 0, target.as_bytes()) {
            Ok(_) => Ok(()),
            Err(e) => {
                proof {
                    assert(spared(w, self@, set![ino])) by {
                        reveal(same_outside);
                    }
                    lemma_spared_on(
                        f1@,
                        w,
                        self@,
                        set![ino],
                        reached(f1@, top(), link@, false),
                    );
                }
                Err(e)
            },
        }
    }

    pub fn hard_link(&mut self, original: UnixPath, link: UnixPath) -> (r: Result<()>)
        requires
            old(self).wf(),
        ensures
            ran(
                *old(self),
                *final(self),
                link_at(old(self)@.at(final(self)@.clock), top(), original@, link@),
                r,
                link_at_room(old(self)@.at(final(self)@.clock), top(), original@, link@),
                0,
            ),
            r is Err ==> spared(
                old(self)@.at(final(self)@.clock),
                final(self)@,
                reached(old(self)@.at(final(self)@.clock), top(), original@, true).union(
                    reached(old(self)@.at(final(self)@.clock), top(), link@, false),
                ),
            ),
    {
        self.link(original, link)
    }

    /// Gives the file at `old_path` one more name.
    pub fn link(&mut self, old_path: UnixPath, new_path: UnixPath) -> (r: Result<()>)
        requires
            old(self).wf(),
        ensures
            ran(
                *old(self),
                *final(self),
                link_at(old(self)@.at(final(self)@.clock), top(), old_path@, new_path@),
                r,
                link_at_room(old(self)@.at(final(self)@.clock), top(), old_path@, new_path@),
                0,
            ),
            r is Err ==> spared(
                old(self)@.at(final(self)@.clock),
                final(self)@,
                reached(old(self)@.at(final(self)@.clock), top(), old_path@, true).union(
                    reached(old(self)@.at(final(self)@.clock), top(), new_path@, false),
                ),
            ),
    {
        self.tick();
        proof {
            lemma_link_clock(self@, top(), old_path@, new_path@);
        }
        let ghost v = self@;
        let ghost touched = reached(v, top(), old_path@, true).union(
            reached(v, top(), new_path@, false),
        );
        proof {
            lemma_spared_same(v, touched);
        }
        let ino = match self.resolve(old_path, true) {
            Ok(ino) => ino,
            Err(e) => return Err(e),
        };
        let dst = match self.walk(new_path, false) {
            Ok(x) => x,
            Err(e) => return Err(e),
        };
        if dst.ino.is_some() {
            return Err(eexist("file exists"));
        }
        let creds = Creds::root();
        let r = self.inner.link_into(ino, dst.parent, dst.name.as_slice(), &creds);
        proof {
            if r is Err {
                lemma_spared_on(v, v, self@, set![dst.parent, ino], touched);
            }
        }
        r
    }

    pub fn remove_file(&mut self, path: UnixPath) -> (r: Result<()>)
        requires
            old(self).wf(),
        ensures
            ran(
                *old(self),
                *final(self),
                unlink_at(old(self)@.at(final(self)@.clock), top(), path@, false),
                r,
                unlink_at_room(old(self)@.at(final(self)@.clock), top(), path@),
                0,
            ),
            r is Err ==> spared(
                old(self)@.at(final(self)@.clock),
                final(self)@,
                reached(old(self)@.at(final(self)@.clock), top(), path@, false),
            ),
    {
        self.unlink(path)
    }

    /// Removes the name of a file that is no directory.
    pub fn unlink(&mut self, path: UnixPath) -> (r: Result<()>)
        requires
            old(self).wf(),
        ensures
            ran(
                *old(self),
                *final(self),
                unlink_at(old(self)@.at(final(self)@.clock), top(), path@, false),
                r,
                unlink_at_room(old(self)@.at(final(self)@.clock), top(), path@),
                0,
            ),
            r is Err ==> spared(
                old(self)@.at(final(self)@.clock),
                final(self)@,
                reached(old(self)@.at(final(self)@.clock), top(), path@, false),
            ),
    {
        self.tick();
        proof {
            lemma_unlink_clock(self@, top(), path@, false);
        }
        self.unlink_now(path, false)
    }

    /// Removes a name.
    fn unlink_now(&mut self, path: UnixPath, rmdir: bool) -> (r: Result<()>)
        requires
            old(self).wf(),
        ensures
            ran(*old(self), *final(self), unlink_at(old(self)@, top(), path@, rmdir), r, unlink_at_room(old(self)@, top(), path@), 0),
            r is Err ==> spared(
                old(self)@,
                final(self)@,
                reached(old(self)@, top(), path@, false),
            ),
            left_over(old(self)@, final(self)@),
    {
        let ghost v = self@;
        let ghost touched = reached(v, top(), path@, false);
        proof {
            lemma_left_same(v);
            lemma_spared_same(v, touched);
        }
        let x = match self.walk(path, false) {
            Ok(x) => x,
            Err(e) => return Err(e),
        };
        if x.ino.is_none() {
            return Err(enoent("no such file or directory"));
        }
        let creds = Creds::root();
        let r = self.inner.unlink_name(x.parent, x.name.as_slice(), rmdir, &creds);
        proof {
            if r is Err {
                lemma_spared_on(v, v, self@, under_name(v, x.parent, x.name@), touched);
            }
        }
        r
    }

    /// Removes a directory that is not the root directory.
    fn rmdir_now(&mut self, path: UnixPath) -> (r: Result<()>)
        requires
            old(self).wf(),
        ensures
            ran(*old(self), *final(self), rmdir_at(old(self)@, top(), path@), r, unlink_at_room(old(self)@, top(), path@), 0),
            r is Err ==> spared(
                old(self)@,
                final(self)@,
                reached(old(self)@, top(), path@, false),
            ),
            left_over(old(self)@, final(self)@),
    {
        let ghost v = self@;
        let ghost touched = reached(v, top(), path@, false);
        proof {
            lemma_left_same(v);
            lemma_spared_same(v, touched);
        }
        let x = match self.walk(path, false) {
            Ok(x) => x,
            Err(e) => return Err(e),
        };
        match x.ino {
            None => return Err(enoent("no such file or directory")),
            Some(ino) => {
                if ino == ROOT_INO {
                    return Err(ebusy("cannot remove root"));
                }
            },
        }
        let creds = Creds::root();
        let r = self.inner.unlink_name(x.parent, x.name.as_slice(), true, &creds);
        proof {
            if r is Err {
                lemma_spared_on(v, v, self@, under_name(v, x.parent, x.name@), touched);
            }
        }
        r
    }

    pub fn remove_dir(&mut self, path: UnixPath) -> (r: Result<()>)
        requires
            old(self).wf(),
        ensures
            ran(
                *old(self),
                *final(self),
                rmdir_at(old(self)@.at(final(self)@.clock), top(), path@),
                r,
                unlink_at_room(old(self)@.at(final(self)@.clock), top(), path@),
                0,
            ),
            r is Err ==> spared(
                old(self)@.at(final(self)@.clock),
                final(self)@,
                reached(old(self)@.at(final(self)@.clock), top(), path@, false),
            ),
    {
        self.rmdir(path)
    }

    /// Removes an empty directory.
    pub fn rmdir(&mut self, path: UnixPath) -> (r: Result<()>)
        requires
            old(self).wf(),
        ensures
            ran(
                *old(self),
                *final(self),
                rmdir_at(old(self)@.at(final(self)@.clock), top(), path@),
                r,
                unlink_at_room(old(self)@.at(final(self)@.clock), top(), path@),
                0,
            ),
            r is Err ==> spared(
                old(self)@.at(final(self)@.clock),
                final(self)@,
                reached(old(self)@.at(final(self)@.clock), top(), path@, false),
            ),
    {
        self.tick();
        proof {
            lemma_unlink_clock(self@, top(), path@, true);
        }
        self.rmdir_now(path)
    }

    /// Renames; what stands under the new name is replaced.
    #[verifier::rlimit(60)]
    #[verifier::spinoff_prover]
    pub fn rename(&mut self, from: UnixPath, to: UnixPath) -> (r: Result<()>)
        requires
            old(self).wf(),
        ensures
            ran(
                *old(self),
                *final(self),
                rename_at(old(self)@.at(final(self)@.clock), top(), from@, to@),
                r,
                rename_at_room(old(self)@.at(final(self)@.clock), top(), from@, to@),
                0,
            ),
            r is Err ==> spared(
                old(self)@.at(final(self)@.clock),
                final(self)@,
                reached(old(self)@.at(final(self)@.clock), top(), from@, false).union(
                    reached(old(self)@.at(final(self)@.clock), top(), to@, false),
                ),
            ),
    {
        self.tick();
        proof {
            lemma_rename_clock(self@, top(), from@, to@);
        }
        let ghost v = self@;
        let ghost touched = reached(v, top(), from@, false).union(
            reached(v, top(), to@, false),
        );
        proof {
            lemma_spared_same(v, touched);
        }
        let src = match self.walk(from, false) {
            Ok(x) => x,
            Err(e) => return Err(e),
        };
        if src.ino.is_none() {
            return Err(enoent("no such file or directory"));
        }
        let dst = match self.walk(to, false) {
            Ok(x) => x,
            Err(e) => return Err(e),
        };
        let creds = Creds::root();
        let r = self.inner.rename(
            src.parent,
            src.name.as_slice(),
            dst.parent,
            dst.name.as_slice(),
            &creds,
        );
        proof {
            if r is Err {
                let both = under_name(v, src.parent, src.name@).union(
                    under_name(v, dst.parent, dst.name@),
                );
                lemma_spared_on(v, v, self@, both, touched);
            }
        }
        r
    }
}

/// A result with the inode of the handle.
pub open spec fn handle_out(r: Result<File>) -> std::result::Result<u64, Error> {
    match r {
        Ok(f) => Ok(f.ino),
        Err(e) => Err(e),
    }
}

/// The text that bytes encode.
pub open spec fn text_of(r: Outcome<Seq<u8>>) -> Outcome<Seq<char>> {
    match r {
        Ok(b) => if valid_utf8(b) {
            Ok(decode_utf8(b))
        } else {
            Err(EINVAL)
        },
        Err(e) => Err(e),
    }
}

/// A result with its text as a sequence.
pub open spec fn text_out(r: Result<String>) -> std::result::Result<Seq<char>, Error> {
    match r {
        Ok(s) => Ok(s@),
        Err(e) => Err(e),
    }
}

/// The entries but `.` and `..`.
fn without_dots(es: Vec<DirEntry>) -> (r: Vec<DirEntry>)
    ensures
        items(r@) == real_items(items(es@)),
{
    let ghost all = items(es@);
    let n: usize = es.len();
    let mut k: usize = 0;
    let mut out: Vec<DirEntry> = Vec::new();
    while k < n
        invariant
            n == es@.len(),
            k <= n,
            all == items(es@),
            items(out@) == real_items(all.take(k as int)),
        decreases n - k,
    {
        proof {
            assert(all.take(k + 1).drop_last() =~= all.take(k as int));
            assert(all.take(k + 1).last() == es@[k as int]@);
        }
        if !is_dot(es[k].name.as_slice()) && !is_dot_dot(es[k].name.as_slice()) {
            let e = DirEntry {
                ino: es[k].ino,
                file_type: es[k].file_type,
                name: crate::bytes::copy_bytes(es[k].name.as_slice()),
            };
            let ghost o0 = out@;
            out.push(e);
            assert(items(out@) =~= items(o0).push(es@[k as int]@));
        }
        k = k + 1;
    }
    assert(all.take(n as int) =~= all);
    out
}

impl LinuxFile {
    /// Opens a path with the given options.
    pub fn open_opts(&mut self, path: UnixPath, opts: &OpenOptions) -> (r: Result<File>)
        requires
            old(self).wf(),
        ensures
            ran(
                *old(self),
                *final(self),
                open_handle(
                    old(self)@.at(final(self)@.clock),
                    top(),
                    path@,
                    *opts,
                    0o022,
                    true,
                ),
                handle_out(r),
                open_room(old(self)@.at(final(self)@.clock), top(), path@, *opts, 0o022),
                fresh(*opts),
            ),
            r matches Ok(f) ==> f.pos == 0 && f.flags == flags_of(*opts),
            r is Err ==> spared(
                old(self)@.at(final(self)@.clock),
                final(self)@,
                reached(old(self)@.at(final(self)@.clock), top(), path@, !opts.nofollow),
            ),
    {
        self.tick();
        proof {
            lemma_open_clock(self@, top(), path@, *opts, 0o022, true);
        }
        let creds = Creds::root();
        match self.inner.open_counted(ROOT_INO, ROOT_INO, &creds, path, opts, 0o022, true) {
            Ok(ino) => Ok(File { ino, flags: opts.as_flags(), pos: 0 }),
            Err(e) => Err(e),
        }
    }

    /// Opens a path for reading.
    pub fn open_file(&mut self, path: UnixPath) -> (r: Result<File>)
        requires
            old(self).wf(),
        ensures
            ran(
                *old(self),
                *final(self),
                open_handle(
                    old(self)@.at(final(self)@.clock),
                    top(),
                    path@,
                    reading(),
                    0o022,
                    true,
                ),
                handle_out(r),
                open_room(old(self)@.at(final(self)@.clock), top(), path@, reading(), 0o022),
                0,
            ),
            r matches Ok(f) ==> f.pos == 0 && f.flags == flags_of(reading()),
            r is Err ==> spared(
                old(self)@.at(final(self)@.clock),
                final(self)@,
                reached(old(self)@.at(final(self)@.clock), top(), path@, true),
            ),
    {
        let mut opts = OpenOptions::new();
        opts.read(true);
        self.open_opts(path, &opts)
    }

    /// Opens a path for writing; the file is created or cut to length 0.
    pub fn create_file(&mut self, path: UnixPath) -> (r: Result<File>)
        requires
            old(self).wf(),
        ensures
            ran(
                *old(self),
                *final(self),
                open_handle(
                    old(self)@.at(final(self)@.clock),
                    top(),
                    path@,
                    rewriting(),
                    0o022,
                    true,
                ),
                handle_out(r),
                open_room(old(self)@.at(final(self)@.clock), top(), path@, rewriting(), 0o022),
                1,
            ),
            r matches Ok(f) ==> f.pos == 0 && f.flags == flags_of(rewriting()),
            r is Err ==> spared(
                old(self)@.at(final(self)@.clock),
                final(self)@,
                reached(old(self)@.at(final(self)@.clock), top(), path@, true),
            ),
    {
        let mut opts = OpenOptions::new();
        opts.write(true).create(true).truncate(true);
        self.open_opts(path, &opts)
    }

    /// Reads a file as a whole, at the time that the clock shows.
    fn read_now(&mut self, path: UnixPath) -> (r: Result<Vec<u8>>)
        requires
            old(self).wf(),
        ensures
            ran(*old(self), *final(self), read_at_path(old(self)@, top(), path@), bytes_out(r), 0, 0),
            r is Err ==> spared(
                old(self)@,
                final(self)@,
                reached(old(self)@, top(), path@, true),
            ),
    {
        let ghost v = self@;
        let ghost touched = reached(v, top(), path@, true);
        let mut opts = OpenOptions::new();
        opts.read(true);
        let creds = Creds::root();
        let ino = match self.inner.open_counted(ROOT_INO, ROOT_INO, &creds, path, &opts, 0o022, true) {
            Ok(ino) => ino,
            Err(e) => return Err(e),
        };
        let r = self.inner.read_whole(ino);
        proof {
            lemma_open_spares(v, top(), path@, opts, 0o022, true);
            lemma_close_spares(self@, ino);
            lemma_spared_on(v, self@, dec_open_op(self@, ino).0, set![ino], touched);
        }
        let _ = self.inner.dec_open(ino);
        r
    }

    /// The contents of a file.
    pub fn read(&mut self, path: UnixPath) -> (r: Result<Vec<u8>>)
        requires
            old(self).wf(),
        ensures
            ran(
                *old(self),
                *final(self),
                read_at_path(old(self)@.at(final(self)@.clock), top(), path@),
                bytes_out(r),
                0,
                0,
            ),
            r is Err ==> spared(
                old(self)@.at(final(self)@.clock),
                final(self)@,
                reached(old(self)@.at(final(self)@.clock), top(), path@, true),
            ),
    {
        self.tick();
        proof {
            lemma_whole_clock(self@, top(), path@, Seq::empty());
        }
        self.read_now(path)
    }

    /// The contents of a file as text; fails with `EINVAL` where they are not UTF-8.
    pub fn read_to_string(&mut self, path: UnixPath) -> (r: Result<String>)
        requires
            old(self).wf(),
        ensures
            ({
                let want = read_at_path(old(self)@.at(final(self)@.clock), top(), path@);
                ran(*old(self), *final(self), (want.0, text_of(want.1)), text_out(r), 0, 0)
            }),
    {
        let bytes = match self.read(path) {
            Ok(b) => b,
            Err(e) => return Err(e),
        };
        match utf8_string(bytes) {
            Some(s) => Ok(s),
            None => Err(einval("invalid utf-8")),
        }
    }
}

impl LinuxFile {
    /// Makes `contents` the contents of a file, at the time that the clock shows.
    fn write_now(&mut self, path: UnixPath, contents: &[u8]) -> (r: Result<()>)
        requires
            old(self).wf(),
        ensures
            ran(*old(self), *final(self), write_at_path(old(self)@, top(), path@, contents@), r, write_at_room(old(self)@, top(), path@, contents@.len() as int), 1),
            r is Err ==> spared(
                old(self)@,
                final(self)@,
                reached(old(self)@, top(), path@, true),
            ),
    {
        let ghost v = self@;
        let ghost touched = reached(v, top(), path@, true);
        let mut opts = OpenOptions::new();
        opts.write(true).create(true).truncate(true);
        let creds = Creds::root();
        let ino = match self.inner.open_counted(ROOT_INO, ROOT_INO, &creds, path, &opts, 0o022, true) {
            Ok(ino) => ino,
            Err(e) => return Err(e),
        };
        if contents.len() == 0 {
            let _ = self.inner.dec_open(ino);
            return Ok(());
        }
        let ghost w = self@;
        let r = self.inner.write_data(ino, 0, contents);
        proof {
            lemma_open_spares(v, top(), path@, opts, 0o022, true);
            assert(spared(w, self@, set![ino])) by {
                reveal(same_outside);
            }
            lemma_spared_on(v, w, self@, set![ino], touched);
            lemma_close_spares(self@, ino);
            lemma_spared_on(v, self@, dec_open_op(self@, ino).0, set![ino], touched);
        }
        let _ = self.inner.dec_open(ino);
        match r {
            Ok(_) => Ok(()),
            Err(e) => Err(e),
        }
    }

    /// Makes `contents` the contents of a file, which is created where there is none.
    pub fn write(&mut self, path: UnixPath, contents: &[u8]) -> (r: Result<()>)
        requires
            old(self).wf(),
        ensures
            ran(
                *old(self),
                *final(self),
                write_at_path(old(self)@.at(final(self)@.clock), top(), path@, contents@),
                r,
                write_at_room(old(self)@.at(final(self)@.clock), top(), path@, contents@.len() as int),
                1,
            ),
            r is Err ==> spared(
                old(self)@.at(final(self)@.clock),
                final(self)@,
                reached(old(self)@.at(final(self)@.clock), top(), path@, true),
            ),
    {
        self.tick();
        proof {
            lemma_whole_clock(self@, top(), path@, contents@);
        }
        self.write_now(path, contents)
    }

    /// Copies the contents and the mode of a file, and returns the number of bytes.
    #[verifier::rlimit(60)]
    #[verifier::spinoff_prover]
    pub fn copy(&mut self, from: UnixPath, to: UnixPath) -> (r: Result<u64>)
        requires
            old(self).wf(),
        ensures
            ran(
                *old(self),
                *final(self),
                copy_at(old(self)@.at(final(self)@.clock), top(), from@, to@),
                r,
                copy_at_room(old(self)@.at(final(self)@.clock), top(), from@, to@),
                1,
            ),
            r is Err ==> ({
                let v = old(self)@.at(final(self)@.clock);
                let w = read_at_path(v, top(), from@).0;
                let t = reached(v, top(), from@, true).union(reached(w, top(), to@, true));
                spared(v, final(self)@, t)
            }),
    {
        self.tick();
        let ghost v = self@;
        proof {
            lemma_whole_clock(v, top(), from@, Seq::empty());
            lemma_whole_spares(v, top(), from@, Seq::empty());
        }
        let ghost w = read_at_path(v, top(), from@).0;
        let ghost t0 = reached(v, top(), from@, true);
        let ghost t1 = reached(w, top(), to@, true);
        let ghost t = t0.union(t1);
        proof {
            lemma_spared_same(v, t);
            lemma_spared_on(v, v, w, t0, t);
        }
        let data = match self.read_now(from) {
            Ok(d) => d,
            Err(e) => {
                proof {
                    lemma_spared_on(v, v, self@, t0, t);
                }
                return Err(e);
            },
        };
        assert(self@ == w);
        let st = match self.stat(from) {
            Ok(st) => st,
            Err(e) => return Err(e),
        };
        proof {
            lemma_whole_clock(w, top(), to@, data@);
            lemma_whole_spares(w, top(), to@, data@);
        }
        match self.write_now(to, data.as_slice()) {
            Ok(_) => {},
            Err(e) => {
                proof {
                    lemma_spared_on(v, w, self@, t1, t);
                }
                return Err(e);
            },
        }
        proof {
            lemma_spared_on(v, w, self@, t1, t);
        }
        let ino = match self.resolve(to, true) {
            Ok(ino) => ino,
            Err(e) => return Err(e),
        };
        let creds = Creds::root();
        match self.inner.chmod(ino, st.mode, &creds) {
            Ok(_) => Ok(data.len() as u64),
            Err(e) => Err(e),
        }
    }

    /// Creates a directory and all that lead to it, at the time that the clock shows.
    #[verifier::rlimit(80)]
    #[verifier::spinoff_prover]
    fn mkdir_all_now(&mut self, path: UnixPath) -> (r: Result<()>)
        requires
            old(self).wf(),
        ensures
            made_all(
                *old(self),
                *final(self),
                mkdir_all(old(self)@, top(), path@),
                path@,
                r,
            ),
            spared(old(self)@, final(self)@, directories(old(self)@)),
        decreases path@.len(),
    {
        proof {
            lemma_spared_same(self@, directories(self@));
        }
        if path.is_root() || path.is_empty() {
            return Ok(());
        }
        let ghost f0 = *self;
        let ghost mut up: Result<()> = Ok(());
        match path.parent() {
            Some(parent) => {
                if !parent.is_empty() && !parent.is_root() && parent.as_bytes().len()
                    < path.as_bytes().len() {
                    let r = self.mkdir_all_now(parent);
                    proof {
                        up = r;
                    }
                }
            },
            None => {},
        }
        let ghost m = *self;
        proof {
            lemma_directories(f0@, m@);
        }
        let r = match self.create_node(path, true, S_IFDIR | apply_umask(0o777, 0o022), 0) {
            Ok(_) => Ok(()),
            Err(e) => {
                if e.errno() != EEXIST {
                    Err(e)
                } else {
                    match self.stat(path) {
                        Ok(st) => {
                            if st.is_dir() {
                                Ok(())
                            } else {
                                Err(e)
                            }
                        },
                        Err(e) => Err(e),
                    }
                }
            },
        };
        proof {
            lemma_spared_on(f0@, m@, self@, directories(m@), directories(f0@));
            assert(ran(m, *self, mkdir_there(m@, top(), path@), r, mkdir_room(m@, top(), path@), 1));
            if let Some(p) = made_first(path@) {
                assert(p.len() < path@.len());
            }
            assert(tried_on((m, up), *self, path@, r));
        }
        r
    }

    /// Creates a directory and all that lead to it. What becomes of the directories on the way is
    /// not looked at: where one of them cannot be made, the last one cannot.
    pub fn create_dir_all(&mut self, path: UnixPath) -> (r: Result<()>)
        requires
            old(self).wf(),
        ensures
            made_all(
                (LinuxFile { inner: at_time(old(self).inner, final(self)@.clock) }),
                *final(self),
                mkdir_all(old(self)@.at(final(self)@.clock), top(), path@),
                path@,
                r,
            ),
            spared(
                old(self)@.at(final(self)@.clock),
                final(self)@,
                directories(old(self)@.at(final(self)@.clock)),
            ),
    {
        let ghost f0 = *self;
        self.tick();
        let ghost f1 = *self;
        proof {
            lemma_mkdir_all_clock(self@, top(), path@);
        }
        assert(f1 == (LinuxFile { inner: at_time(f0.inner, f1@.clock) }));
        self.mkdir_all_now(path)
    }

    /// Removes the entries of a directory, at the time that the clock shows.
    #[verifier::rlimit(100)]
    #[verifier::spinoff_prover]
    fn remove_entries_now(&mut self, path: UnixPath, es: &Vec<DirEntry>) -> (r: Result<()>)
        requires
            old(self).wf(),
        ensures
            ran(
                *old(self),
                *final(self),
                remove_items(old(self)@, top(), path@, items(es@), 0),
                r,
                remove_items_room(old(self)@, top(), path@, items(es@), 0),
                0,
            ),
            left_over(old(self)@, final(self)@),
        decreases usize::MAX - path@.len(), 0int,
    {
        let ghost f0 = *self;
        let ghost all = items(es@);
        let ghost want = remove_items(f0@, top(), path@, all, 0);
        let ghost room = remove_items_room(f0@, top(), path@, all, 0);
        proof {
            lemma_left_same(f0@);
            lemma_items_room(f0@, top(), path@, all, 0);
        }
        let n: usize = es.len();
        let mut k: usize = 0;
        while k < n
            invariant
                self.wf(),
                keeps(f0.inner, self.inner),
                left_over(f0@, self@),
                f0 == *old(self),
                all == items(es@),
                n == es@.len(),
                k <= n,
                room == remove_items_room(f0@, top(), path@, all, 0),
                want == remove_items(f0@, top(), path@, all, 0),
                want == remove_items(self@, top(), path@, all, k as nat),
                self.inner.load() + remove_items_room(self@, top(), path@, all, k as nat)
                    <= f0.inner.load() + room,
                remove_items_room(self@, top(), path@, all, k as nat) >= 0,
            decreases n - k,
        {
            let name = es[k].name.as_slice();
            assert(all[k as int] == es@[k as int]@);
            let child = path.join(UnixPath::from_bytes(name));
            if child.inner.len() <= path.inner.len() {
                return Err(eio("bad directory entry"));
            }
            let ghost m = *self;
            proof {
                lemma_items_step(m@, top(), path@, all, k as nat);
            }
            let r = self.remove_entry_now(child.as_path(), es[k].file_type.is_dir());
            proof {
                lemma_left_on(f0@, m@, self@);
            }
            match r {
                Ok(_) => {},
                Err(e) => return Err(e),
            }
            k = k + 1;
        }
        Ok(())
    }

    /// Removes one entry of a directory, at the time that the clock shows.
    fn remove_entry_now(&mut self, child: UnixPath, dir: bool) -> (r: Result<()>)
        requires
            old(self).wf(),
        ensures
            ran(
                *old(self),
                *final(self),
                remove_entry(old(self)@, top(), child@, dir),
                r,
                remove_entry_room(old(self)@, top(), child@, dir),
                0,
            ),
            left_over(old(self)@, final(self)@),
        decreases usize::MAX - child@.len(), 2int,
    {
        if dir {
            self.remove_all_now(child)
        } else {
            self.unlink_now(child, false)
        }
    }

    /// Removes a file, or a directory with all that is in it, at the time that the clock shows.
    #[verifier::rlimit(100)]
    #[verifier::spinoff_prover]
    fn remove_all_now(&mut self, path: UnixPath) -> (r: Result<()>)
        requires
            old(self).wf(),
        ensures
            ran(*old(self), *final(self), remove_all(old(self)@, top(), path@), r, remove_all_room(old(self)@, top(), path@), 0),
            left_over(old(self)@, final(self)@),
        decreases usize::MAX - path@.len(), 1int,
    {
        let ghost f0 = *self;
        proof {
            lemma_left_same(f0@);
            lemma_remove_room(f0@, top(), path@);
            lemma_dir_room(f0@, top(), path@);
        }
        let st = match self.lstat(path) {
            Ok(st) => st,
            Err(e) => {
                if e.errno() == ENOENT {
                    return Ok(());
                }
                return Err(e);
            },
        };
        if !st.is_dir() {
            return self.unlink_now(path, false);
        }
        let ino = match self.resolve(path, true) {
            Ok(ino) => ino,
            Err(e) => return Err(e),
        };
        let all = match self.inner.read_dir_entries(ino) {
            Ok(es) => es,
            Err(e) => return Err(e),
        };
        let es = without_dots(all);
        let ghost want = remove_items(f0@, top(), path@, items(es@), 0);
        proof {
            lemma_items_room(f0@, top(), path@, items(es@), 0);
        }
        match self.remove_entries_now(path, &es) {
            Ok(_) => {},
            Err(e) => return Err(e),
        }
        let ghost m = self@;
        let r = self.rmdir_now(path);
        proof {
            lemma_left_on(f0@, m, self@);
        }
        r
    }

    /// Removes a file, or a directory with all that is in it. Nothing is done where there is no
    /// such file.
    pub fn remove_dir_all(&mut self, path: UnixPath) -> (r: Result<()>)
        requires
            old(self).wf(),
        ensures
            ran(
                *old(self),
                *final(self),
                remove_all(old(self)@.at(final(self)@.clock), top(), path@),
                r,
                remove_all_room(old(self)@.at(final(self)@.clock), top(), path@),
                0,
            ),
            left_over(old(self)@.at(final(self)@.clock), final(self)@),
    {
        self.tick();
        proof {
            lemma_remove_all_clock(self@, top(), path@);
        }
        self.remove_all_now(path)
    }
}

} // verus!
