//! What the calls on metadata, attributes and contents mean for the files that they are made on.

use vstd::prelude::*;

use crate::store::resized;
use crate::calls::{
    chmod_at, chown_at, compression_at, find, find_file, getxattr_at, listxattr_at, node_stat,
    removexattr_at, set_compression_at, set_times_at, setxattr_at, stat_at, top, truncate_at,
    truncate_op, write_op, Place,
};
use crate::compress::{compression_code, compression_of, Compression};
use crate::data::{read_buf, read_len};
use crate::error::{EEXIST, EFBIG, EINVAL, EIO, EISDIR, ENODATA, ENOENT, EPERM, EROFS};
use crate::laws::{lemma_meta_changed, rooted};
use crate::model::{FsView, Meta, Node};
use crate::ops::{
    attr_position, attrs_without, chmod_op, chown_op, getxattr_op, listxattr_op, may_chown,
    removexattr_op, set_compression_op, set_times_op, setxattr_op, type_at, whole,
};
use crate::types::{CredsView, FileTimes};

verus! {

/// File systems that differ in nothing but their files.
pub open spec fn same_rest(v: FsView, w: FsView) -> bool {
    &&& w.opens == v.opens
    &&& w.orphans == v.orphans
    &&& w.free_inodes == v.free_inodes
    &&& w.next_inode == v.next_inode
    &&& w.writable == v.writable
    &&& w.check_perm == v.check_perm
    &&& w.clock == v.clock
    &&& w.default_compression == v.default_compression
}

/// File systems that differ in nothing but what file `ino` is.
pub open spec fn differs_in(v: FsView, w: FsView, ino: u64) -> bool {
    &&& same_rest(v, w)
    &&& forall|x: u64| #[trigger] w.nodes.contains_key(x) <==> v.nodes.contains_key(x)
    &&& forall|x: u64| x != ino && v.nodes.contains_key(x) ==> #[trigger] w.nodes[x] == v.nodes[x]
}

/// A change of metadata leaves what a file holds alone, and its own time stamp is the time.
pub open spec fn touched(v: FsView, w: FsView, ino: u64) -> bool {
    &&& w.nodes[ino].data == v.nodes[ino].data
    &&& w.nodes[ino].xattr == v.nodes[ino].xattr
    &&& w.nodes[ino].meta.ctime == v.clock
    &&& w.nodes[ino].meta.nlink == v.nodes[ino].meta.nlink
    &&& w.nodes[ino].meta.rdev == v.nodes[ino].meta.rdev
}

/// The owners of a file.
pub open spec fn same_owners(a: Meta, b: Meta) -> bool {
    a.uid == b.uid && a.gid == b.gid
}

/// The time stamps of a file but for that of changes of its metadata.
pub open spec fn same_times(a: Meta, b: Meta) -> bool {
    a.atime == b.atime && a.mtime == b.mtime && a.btime == b.btime
}

/// `chmod` is for the owner and the superuser, where permissions count. It sets the twelve
/// permission bits, and nothing else but the time of the change.
pub proof fn chmod_means(v: FsView, ino: u64, mode: u16, creds: CredsView)
    ensures
        ({
            let (w, r) = chmod_op(v, ino, mode, creds);
            let m = v.nodes[ino].meta;
            let n = w.nodes[ino].meta;
            &&& r is Ok <==> v.writable && v.nodes.contains_key(ino) && (v.check_perm ==> creds.fsuid
                == 0 || creds.fsuid == m.uid)
            &&& r is Err ==> w == v
            &&& !v.writable ==> r == Err::<(), i32>(EROFS)
            &&& v.writable && !v.nodes.contains_key(ino) ==> r == Err::<(), i32>(EIO)
            &&& v.writable && v.nodes.contains_key(ino) && r is Err ==> r == Err::<(), i32>(EPERM)
            &&& r is Ok ==> {
                &&& differs_in(v, w, ino)
                &&& touched(v, w, ino)
                &&& same_owners(m, n)
                &&& same_times(m, n)
                &&& n.compression == m.compression
                &&& n.mode & 0o7777 == mode & 0o7777
                &&& m.mode & 0o170000 != 0 ==> n.mode & 0o170000 == m.mode & 0o170000
            }
        }),
{
    let m = v.nodes[ino].meta.mode;
    assert(((m & 0o170000u16) | (mode & 0o7777u16)) & 0o7777u16 == mode & 0o7777u16 && ((m
        & 0o170000u16) | (mode & 0o7777u16)) & 0o170000u16 == m & 0o170000u16 && (0u16 & 0o170000u16
        == 0) && (0o100000u16 & 0o7777u16 == 0) && (0u16 & 0o7777u16 == 0)) by (bit_vector);
}

/// `chown` sets the owners that are given and keeps the others, and changes nothing else but the
/// time of the change.
pub proof fn chown_means(v: FsView, ino: u64, uid: Option<u32>, gid: Option<u32>, creds: CredsView)
    ensures
        ({
            let (w, r) = chown_op(v, ino, uid, gid, creds);
            let m = v.nodes[ino].meta;
            let n = w.nodes[ino].meta;
            &&& r is Ok <==> v.writable && v.nodes.contains_key(ino) && (v.check_perm ==> may_chown(
                m.uid,
                uid,
                gid,
                creds,
            ))
            &&& r is Err ==> w == v
            &&& !v.writable ==> r == Err::<(), i32>(EROFS)
            &&& v.writable && !v.nodes.contains_key(ino) ==> r == Err::<(), i32>(EIO)
            &&& v.writable && v.nodes.contains_key(ino) && r is Err ==> r == Err::<(), i32>(EPERM)
            &&& r is Ok ==> {
                &&& differs_in(v, w, ino)
                &&& touched(v, w, ino)
                &&& same_times(m, n)
                &&& n.mode == m.mode
                &&& n.compression == m.compression
                &&& uid matches Some(u) ==> n.uid == u
                &&& uid is None ==> n.uid == m.uid
                &&& gid matches Some(g) ==> n.gid == g
                &&& gid is None ==> n.gid == m.gid
            }
        }),
{
}

/// The times that are given are the times of the file from then on; one that is not given stays
/// what it was.
pub open spec fn times_set(m: Meta, n: Meta, times: FileTimes) -> bool {
    &&& times.accessed matches Some(t) ==> n.atime == t
    &&& times.accessed is None ==> n.atime == m.atime
    &&& times.modified matches Some(t) ==> n.mtime == t
    &&& times.modified is None ==> n.mtime == m.mtime
    &&& times.created matches Some(t) ==> n.btime == t
    &&& times.created is None ==> n.btime == m.btime
}

/// Setting times sets each of the times that are given, and nothing else but the time of the change.
pub proof fn set_times_means(v: FsView, ino: u64, times: FileTimes)
    ensures
        ({
            let (w, r) = set_times_op(v, ino, times);
            let m = v.nodes[ino].meta;
            let n = w.nodes[ino].meta;
            &&& r is Ok <==> v.writable && v.nodes.contains_key(ino)
            &&& r is Err ==> w == v
            &&& !v.writable ==> r == Err::<(), i32>(EROFS)
            &&& v.writable && !v.nodes.contains_key(ino) ==> r == Err::<(), i32>(EIO)
            &&& r is Ok ==> {
                &&& differs_in(v, w, ino)
                &&& touched(v, w, ino)
                &&& same_owners(m, n)
                &&& n.mode == m.mode
                &&& n.compression == m.compression
                &&& times_set(m, n, times)
            }
        }),
{
}

/// After the times of a path were set, `stat` of the path gives the times that were given, and the
/// ones from before for the others.
pub proof fn stat_after_set_times(v: FsView, path: Seq<u8>, times: FileTimes, blocks: u64)
    requires
        rooted(v),
        set_times_at(v, top(), path, times).1 is Ok,
    ensures
        ({
            let w = set_times_at(v, top(), path, times).0;
            let ino = stat_at(w, top(), path, true)->Ok_0;
            let st = node_stat(ino, w.nodes[ino], blocks);
            let before = node_stat(ino, v.nodes[ino], blocks);
            &&& stat_at(w, top(), path, true) is Ok
            &&& stat_at(v, top(), path, true) == Ok::<u64, i32>(ino)
            &&& times.accessed matches Some(t) ==> st.atime == t
            &&& times.modified matches Some(t) ==> st.mtime == t
            &&& times.created matches Some(t) ==> st.btime == t
            &&& times.accessed is None ==> st.atime == before.atime
            &&& times.modified is None ==> st.mtime == before.mtime
            &&& times.created is None ==> st.btime == before.btime
            &&& st.ctime == v.clock
            &&& (st.mode, st.nlink, st.uid, st.gid, st.size, st.rdev) == (
                before.mode,
                before.nlink,
                before.uid,
                before.gid,
                before.size,
                before.rdev,
            )
        }),
{
    let w = set_times_at(v, top(), path, times).0;
    let ino = find_file(v, top(), path, true)->Ok_0;
    assert(w.nodes =~= v.nodes.insert(ino, w.nodes[ino]));
    lemma_meta_changed(v, w, ino, path, true);
}

/// `stat` tells the number of a file, its metadata, and its length.
pub proof fn stat_tells(ino: u64, n: Node, blocks: u64)
    requires
        n.data.len() <= u64::MAX,
    ensures
        ({
            let st = node_stat(ino, n, blocks);
            &&& st.ino == ino
            &&& st.mode == n.meta.mode
            &&& st.nlink == n.meta.nlink
            &&& st.uid == n.meta.uid
            &&& st.gid == n.meta.gid
            &&& st.size == n.data.len()
            &&& st.blocks == blocks
            &&& st.blksize == 4096
            &&& st.rdev == n.meta.rdev
            &&& st.atime == n.meta.atime
            &&& st.mtime == n.meta.mtime
            &&& st.ctime == n.meta.ctime
            &&& st.btime == n.meta.btime
        }),
{
}

/// The metadata of an inode is told field by field.
pub proof fn metadata_tells(i: crate::inode::Inode)
    ensures
        ({
            let m = crate::model::meta_of(i);
            let st = crate::attrs::stat_of(i);
            &&& m.mode == i.mode && st.mode == i.mode
            &&& m.nlink == i.nlink && st.nlink == i.nlink
            &&& m.uid == i.uid && st.uid == i.uid
            &&& m.gid == i.gid && st.gid == i.gid
            &&& m.rdev == i.rdev && st.rdev == i.rdev
            &&& m.compression == i.compression
            &&& m.atime == i.atime && st.atime == i.atime
            &&& m.mtime == i.mtime && st.mtime == i.mtime
            &&& m.ctime == i.ctime && st.ctime == i.ctime
            &&& m.btime == i.btime && st.btime == i.btime
            &&& st.ino == i.ino
            &&& st.size == i.size
            &&& st.blocks == i.blocks
            &&& st.blksize == 4096
        }),
{
}

/// A path leads to a file where its last name stands for one.
pub proof fn files_of_paths(v: FsView, at: Place, path: Seq<u8>, follow: bool)
    ensures
        find(v, at, path, follow) matches Err(e) ==> find_file(v, at, path, follow) == Err::<u64, i32>(
            e,
        ) && stat_at(v, at, path, follow) == Err::<u64, i32>(e),
        find(v, at, path, follow) matches Ok(f) ==> {
            &&& f.ino is None ==> find_file(v, at, path, follow) == Err::<u64, i32>(ENOENT)
                && stat_at(v, at, path, follow) == Err::<u64, i32>(ENOENT)
            &&& f.ino matches Some(ino) ==> find_file(v, at, path, follow) == Ok::<u64, i32>(ino)
                && (v.nodes.contains_key(ino) ==> stat_at(v, at, path, follow) == Ok::<u64, i32>(
                ino,
            ))
        },
        stat_at(v, at, path, follow) matches Ok(ino) ==> v.nodes.contains_key(ino) && find_file(
            v,
            at,
            path,
            follow,
        ) == Ok::<u64, i32>(ino),
{
}

/// A call on a path is the call on the file that the path leads to, with the last symbolic link
/// followed; where it leads to none, nothing happens, and the walk says why.
pub proof fn calls_go_to_the_file(
    v: FsView,
    at: Place,
    path: Seq<u8>,
    mode: u16,
    uid: u32,
    gid: u32,
    follow: bool,
    times: FileTimes,
    name: Seq<u8>,
    value: Seq<u8>,
    flags: u32,
    c: Compression,
)
    ensures
        find_file(v, at, path, true) matches Err(e) ==> {
            &&& chmod_at(v, at, path, mode) == (v, Err::<(), i32>(e))
            &&& set_times_at(v, at, path, times) == (v, Err::<(), i32>(e))
            &&& set_compression_at(v, at, path, c) == (v, Err::<(), i32>(e))
            &&& setxattr_at(v, at, path, name, value, flags) == (v, Err::<(), i32>(e))
            &&& removexattr_at(v, at, path, name) == (v, Err::<(), i32>(e))
            &&& getxattr_at(v, at, path, name) == Err::<Seq<u8>, i32>(e)
            &&& listxattr_at(v, at, path) == Err::<Seq<Seq<u8>>, i32>(e)
        },
        find_file(v, at, path, true) matches Ok(ino) ==> {
            &&& chmod_at(v, at, path, mode) == chmod_op(v, ino, mode, at.creds)
            &&& set_times_at(v, at, path, times) == set_times_op(v, ino, times)
            &&& c is Off ==> set_compression_at(v, at, path, c) == set_compression_op(v, ino, 0)
            &&& c is Lz4 ==> set_compression_at(v, at, path, c) == set_compression_op(v, ino, 1)
            &&& setxattr_at(v, at, path, name, value, flags) == setxattr_op(
                v,
                ino,
                name,
                value,
                flags,
            )
            &&& removexattr_at(v, at, path, name) == removexattr_op(v, ino, name)
            &&& getxattr_at(v, at, path, name) == getxattr_op(v, ino, name)
            &&& listxattr_at(v, at, path) == listxattr_op(v, ino)
        },
        find_file(v, at, path, follow) matches Err(e) ==> chown_at(v, at, path, follow, uid, gid) == (
            v,
            Err::<(), i32>(e),
        ),
        find_file(v, at, path, follow) matches Ok(ino) ==> chown_at(v, at, path, follow, uid, gid)
            == chown_op(v, ino, Some(uid), Some(gid), at.creds),
{
}

/// Choosing a compression chooses it, and changes nothing else but the time of the change.
pub proof fn set_compression_means(v: FsView, ino: u64, code: u8)
    ensures
        ({
            let (w, r) = set_compression_op(v, ino, code);
            let m = v.nodes[ino].meta;
            let n = w.nodes[ino].meta;
            &&& r is Ok <==> v.writable && v.nodes.contains_key(ino)
            &&& r is Err ==> w == v
            &&& !v.writable ==> r == Err::<(), i32>(EROFS)
            &&& v.writable && !v.nodes.contains_key(ino) ==> r == Err::<(), i32>(EIO)
            &&& r is Ok ==> {
                &&& differs_in(v, w, ino)
                &&& touched(v, w, ino)
                &&& same_owners(m, n)
                &&& same_times(m, n)
                &&& n.mode == m.mode
                &&& n.compression == code
            }
        }),
        compression_code(Compression::Off) == 0,
        compression_code(Compression::Lz4) == 1,
        compression_of(1) is Lz4,
        code != 1 ==> compression_of(code) is Off,
{
}

/// The compression of a path is that of the file it leads to.
pub proof fn compression_is_told(v: FsView, at: Place, path: Seq<u8>)
    ensures
        stat_at(v, at, path, true) matches Ok(ino) ==> {
            &&& v.nodes[ino].meta.compression == 1 ==> compression_at(v, at, path) == Ok::<
                Compression,
                i32,
            >(Compression::Lz4)
            &&& v.nodes[ino].meta.compression != 1 ==> compression_at(v, at, path) == Ok::<
                Compression,
                i32,
            >(Compression::Off)
        },
        stat_at(v, at, path, true) matches Err(e) ==> compression_at(v, at, path) == Err::<
            Compression,
            i32,
        >(e),
{
}

/// Setting the length of a file keeps its beginning, fills up with zeros, stamps the file where its
/// length changes, and leaves everything else alone.
pub proof fn truncate_means(v: FsView, ino: u64, n: u64)
    ensures
        ({
            let (w, r) = truncate_op(v, ino, n);
            let d = v.nodes[ino].data;
            let e = w.nodes[ino].data;
            &&& r is Ok <==> v.writable && n <= 0x1000_0000_0000 && v.nodes.contains_key(ino)
            &&& r is Err ==> w == v
            &&& !v.writable ==> r == Err::<(), i32>(EROFS)
            &&& v.writable && n > 0x1000_0000_0000 ==> r == Err::<(), i32>(EFBIG)
            &&& r is Ok ==> {
                &&& differs_in(v, w, ino)
                &&& e.len() == n
                &&& forall|p: int| 0 <= p < n && p < d.len() ==> #[trigger] e[p] == d[p]
                &&& forall|p: int| d.len() <= p < n ==> #[trigger] e[p] == 0
                &&& w.nodes[ino].xattr == v.nodes[ino].xattr
                &&& d.len() == n ==> w.nodes[ino].meta == v.nodes[ino].meta
                &&& d.len() != n ==> stamped(v, w, ino)
            }
        }),
{
}

/// A change of the contents of file `ino` stamps it with the time, and keeps the rest of its
/// metadata.
pub open spec fn stamped(v: FsView, w: FsView, ino: u64) -> bool {
    let m = v.nodes[ino].meta;
    let n = w.nodes[ino].meta;
    &&& n.mtime == v.clock
    &&& n.ctime == v.clock
    &&& n.atime == m.atime
    &&& n.btime == m.btime
    &&& n.mode == m.mode
    &&& n.nlink == m.nlink
    &&& n.compression == m.compression
    &&& n.rdev == m.rdev
    &&& same_owners(m, n)
}

/// A path whose length is set leads to a file that is no directory.
pub proof fn truncate_goes_to_the_file(v: FsView, at: Place, path: Seq<u8>, n: u64)
    ensures
        stat_at(v, at, path, true) matches Err(e) ==> truncate_at(v, at, path, n) == (v, Err::<
            (),
            i32,
        >(e)),
        stat_at(v, at, path, true) matches Ok(ino) ==> {
            &&& type_at(v, ino) is Directory ==> truncate_at(v, at, path, n) == (v, Err::<(), i32>(
                EISDIR,
            ))
            &&& !(type_at(v, ino) is Directory) ==> truncate_at(v, at, path, n) == truncate_op(
                v,
                ino,
                n,
            )
        },
{
}

/// A write succeeds wherever the file may get that long; it stamps the file and leaves everything
/// else alone. To write nothing changes nothing.
pub proof fn write_means(v: FsView, ino: u64, off: u64, buf: Seq<u8>)
    ensures
        ({
            let (w, r) = write_op(v, ino, off, buf);
            &&& r is Ok <==> v.writable && (buf.len() == 0 || off + buf.len() <= 0x1000_0000_0000
                && v.nodes.contains_key(ino))
            &&& r is Err ==> w == v
            &&& !v.writable ==> r == Err::<(), i32>(EROFS)
            &&& v.writable && buf.len() > 0 && off + buf.len() > 0x1000_0000_0000 ==> r == Err::<
                (),
                i32,
            >(EFBIG)
            &&& r is Ok && buf.len() == 0 ==> w == v
            &&& r is Ok && buf.len() > 0 ==> {
                &&& differs_in(v, w, ino)
                &&& stamped(v, w, ino)
                &&& w.nodes[ino].xattr == v.nodes[ino].xattr
                &&& w.nodes[ino].data.len() >= v.nodes[ino].data.len()
                &&& forall|k: int|
                    0 <= k < buf.len() ==> w.nodes[ino].data[off + k] == #[trigger] buf[k]
            }
        }),
{
}

/// A read gets as many bytes as there are, up to the length of the buffer, and those of the file from
/// its position on; the rest of the buffer stays as it is.
pub proof fn read_means(data: Seq<u8>, off: int, buf: Seq<u8>)
    requires
        off >= 0,
    ensures
        ({
            let n = read_len(data.len() as int, off, buf.len() as int);
            let b = read_buf(data, off, buf);
            &&& 0 <= n <= buf.len()
            &&& b.len() == buf.len()
            &&& off + buf.len() <= data.len() ==> n == buf.len()
            &&& off <= data.len() < off + buf.len() ==> off + n == data.len()
            &&& off >= data.len() ==> n == 0
            &&& forall|k: int| 0 <= k < n ==> #[trigger] b[k] == data[off + k]
            &&& forall|k: int| n <= k < buf.len() ==> #[trigger] b[k] == buf[k]
        }),
{
}

/// A file reads as what it holds.
pub proof fn whole_file_is_its_data(v: FsView, ino: u64)
    ensures
        v.nodes.contains_key(ino) && v.nodes[ino].data.len() <= usize::MAX ==> whole(v, ino) == Ok::<
            Seq<u8>,
            i32,
        >(v.nodes[ino].data),
        !v.nodes.contains_key(ino) ==> whole(v, ino) == Err::<Seq<u8>, i32>(EIO),
{
}

/// A file has an attribute of this name.
pub open spec fn has_attr(v: FsView, ino: u64, name: Seq<u8>) -> bool {
    exists|k: int|
        0 <= k < v.nodes[ino].xattr.len() && (#[trigger] v.nodes[ino].xattr[k]).0 == name
}

proof fn lemma_position(x: Seq<(Seq<u8>, Seq<u8>)>, name: Seq<u8>)
    ensures
        attr_position(x, name) matches Some(k) ==> 0 <= k < x.len() && x[k].0 == name,
        attr_position(x, name) is None ==> forall|k: int|
            0 <= k < x.len() ==> (#[trigger] x[k]).0 != name,
    decreases x.len(),
{
    if x.len() > 0 {
        let y = x.drop_last();
        lemma_position(y, name);
        if attr_position(x, name) is None {
            assert forall|k: int| 0 <= k < x.len() implies (#[trigger] x[k]).0 != name by {
                if k < y.len() {
                    assert(x[k] == y[k]);
                }
            }
        }
    }
}

/// The list of attributes names each that the file has, and no other; an attribute is read exactly
/// where it is listed.
pub proof fn listed_attributes_are_read(v: FsView, ino: u64, name: Seq<u8>)
    ensures
        !v.nodes.contains_key(ino) ==> listxattr_op(v, ino) == Err::<Seq<Seq<u8>>, i32>(EIO)
            && getxattr_op(v, ino, name) == Err::<Seq<u8>, i32>(EIO),
        v.nodes.contains_key(ino) ==> {
            let l = listxattr_op(v, ino)->Ok_0;
            &&& listxattr_op(v, ino) is Ok
            &&& l.len() == v.nodes[ino].xattr.len()
            &&& forall|k: int| 0 <= k < l.len() ==> #[trigger] l[k] == v.nodes[ino].xattr[k].0
            &&& l.contains(name) <==> has_attr(v, ino, name)
            &&& getxattr_op(v, ino, name) is Ok <==> has_attr(v, ino, name)
            &&& getxattr_op(v, ino, name) matches Ok(value) ==> v.nodes[ino].xattr.contains(
                (name, value),
            )
            &&& getxattr_op(v, ino, name) matches Err(e) ==> e == ENODATA
        },
{
    let x = v.nodes[ino].xattr;
    lemma_position(x, name);
    if v.nodes.contains_key(ino) {
        let l = listxattr_op(v, ino)->Ok_0;
        if l.contains(name) {
            let k = l.index_of(name);
            assert(x[k].0 == name);
        }
        if has_attr(v, ino, name) {
            let k = choose|k: int| 0 <= k < x.len() && (#[trigger] x[k]).0 == name;
            assert(l[k] == name);
        }
        if let Some(k) = attr_position(x, name) {
            assert(x[k] == (name, x[k].1));
        }
    }
}

/// When an attribute can be set: the volume is writable, the name has 1 to 255 bytes, and the file
/// has the attribute or not as the flags demand. Nothing but the attribute and the time of the change
/// changes.
pub proof fn setxattr_means(v: FsView, ino: u64, name: Seq<u8>, value: Seq<u8>, flags: u32)
    ensures
        ({
            let (w, r) = setxattr_op(v, ino, name, value, flags);
            let m = v.nodes[ino].meta;
            let n = w.nodes[ino].meta;
            let named = 1 <= name.len() <= 255;
            &&& r is Ok <==> v.writable && named && v.nodes.contains_key(ino) && (flags & 1 != 0
                ==> !has_attr(v, ino, name)) && (flags & 2 != 0 ==> has_attr(v, ino, name))
            &&& r is Err ==> w == v
            &&& !v.writable ==> r == Err::<(), i32>(EROFS)
            &&& v.writable && !named ==> r == Err::<(), i32>(EINVAL)
            &&& v.writable && named && v.nodes.contains_key(ino) && flags & 1 != 0 && has_attr(
                v,
                ino,
                name,
            ) ==> r == Err::<(), i32>(EEXIST)
            &&& v.writable && named && v.nodes.contains_key(ino) && flags & 2 != 0 && !has_attr(
                v,
                ino,
                name,
            ) ==> r == Err::<(), i32>(ENODATA)
            &&& r is Ok ==> {
                &&& differs_in(v, w, ino)
                &&& w.nodes[ino].data == v.nodes[ino].data
                &&& n.ctime == v.clock
                &&& same_times(m, n)
                &&& same_owners(m, n)
                &&& (n.mode, n.nlink, n.rdev, n.compression) == (
                    m.mode,
                    m.nlink,
                    m.rdev,
                    m.compression,
                )
                &&& w.nodes[ino].xattr.len() == v.nodes[ino].xattr.len() + if has_attr(v, ino, name) {
                    0int
                } else {
                    1
                }
            }
        }),
{
    lemma_position(v.nodes[ino].xattr, name);
}

/// What is left of a list of attributes without those of one name.
proof fn lemma_without(x: Seq<(Seq<u8>, Seq<u8>)>, name: Seq<u8>, other: Seq<u8>)
    requires
        other != name,
    ensures
        ({
            let y = attrs_without(x, name);
            &&& match attr_position(x, other) {
                Some(k) => attr_position(y, other) matches Some(j) && y[j] == x[k] && 0 <= j < y.len(),
                None => attr_position(y, other) is None,
            }
        }),
    decreases x.len(),
{
    lemma_position(x, other);
    if x.len() > 0 {
        let front = x.drop_last();
        lemma_position(front, other);
        lemma_without(front, name, other);
        let y = attrs_without(front, name);
        if x.last().0 != name {
            assert(y.push(x.last()).drop_last() =~= y);
        }
        if let Some(k) = attr_position(front, other) {
            assert(front[k] == x[k]);
        }
    }
}

/// Removing an attribute removes it and keeps every other one; it fails where there is none.
pub proof fn removexattr_means(v: FsView, ino: u64, name: Seq<u8>, other: Seq<u8>)
    ensures
        ({
            let (w, r) = removexattr_op(v, ino, name);
            let m = v.nodes[ino].meta;
            let n = w.nodes[ino].meta;
            &&& r is Ok <==> v.writable && v.nodes.contains_key(ino) && has_attr(v, ino, name)
            &&& r is Err ==> w == v
            &&& !v.writable ==> r == Err::<(), i32>(EROFS)
            &&& v.writable && v.nodes.contains_key(ino) && !has_attr(v, ino, name) ==> r == Err::<
                (),
                i32,
            >(ENODATA)
            &&& r is Ok ==> {
                &&& differs_in(v, w, ino)
                &&& w.nodes[ino].data == v.nodes[ino].data
                &&& n.ctime == v.clock
                &&& same_times(m, n)
                &&& same_owners(m, n)
                &&& (n.mode, n.nlink, n.rdev, n.compression) == (
                    m.mode,
                    m.nlink,
                    m.rdev,
                    m.compression,
                )
                &&& !has_attr(w, ino, name)
                &&& other != name ==> getxattr_op(w, ino, other) == getxattr_op(v, ino, other)
            }
        }),
{
    let x = v.nodes[ino].xattr;
    lemma_position(x, name);
    if other != name {
        lemma_without(x, name, other);
    }
    lemma_all_gone(x, name);
}

proof fn lemma_all_gone(x: Seq<(Seq<u8>, Seq<u8>)>, name: Seq<u8>)
    ensures
        forall|k: int|
            0 <= k < attrs_without(x, name).len() ==> (#[trigger] attrs_without(x, name)[k]).0
                != name,
    decreases x.len(),
{
    if x.len() > 0 {
        let front = attrs_without(x.drop_last(), name);
        lemma_all_gone(x.drop_last(), name);
        assert forall|k: int| 0 <= k < attrs_without(x, name).len() implies (
        #[trigger] attrs_without(x, name)[k]).0 != name by {
            if k < front.len() {
                assert(attrs_without(x, name)[k] == front[k]);
            }
        }
    }
}

/// A length is cut, or filled up with zeros.
pub proof fn resized_means(d: Seq<u8>, n: nat)
    ensures
        resized(d, n).len() == n,
        forall|p: int| 0 <= p < n && p < d.len() ==> #[trigger] resized(d, n)[p] == d[p],
        forall|p: int| d.len() <= p < n ==> #[trigger] resized(d, n)[p] == 0,
{
}

} // verus!
