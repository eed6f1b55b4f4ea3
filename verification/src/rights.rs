//! What modes, credentials, masks and flags mean, bit by bit.

use vstd::prelude::*;

use crate::calls::{access_at, stat_at, Place};
use crate::error::EACCES;
use crate::file::{can_read, can_write, flags_of, options_of, seek_to, OpenOptions, SeekFrom};
use crate::model::FsView;
use crate::ops::may_chown;
use crate::types::{
    creds_of, dev_of, major_of, masked_mode, may_access, minor_of, mode_of_type, some_mode,
    type_of_mode, Access, CredsView, FileType,
};

verus! {

/// The bit of the owner for an access.
pub open spec fn owner_bit(a: Access) -> u16 {
    match a {
        Access::Read => 0o400,
        Access::Write => 0o200,
        Access::Exec => 0o100,
    }
}

/// The bit of the group for an access.
pub open spec fn group_bit(a: Access) -> u16 {
    match a {
        Access::Read => 0o040,
        Access::Write => 0o020,
        Access::Exec => 0o010,
    }
}

/// The bit of all others for an access.
pub open spec fn other_bit(a: Access) -> u16 {
    match a {
        Access::Read => 0o004,
        Access::Write => 0o002,
        Access::Exec => 0o001,
    }
}

/// Three bits of a mode, one by one.
proof fn lemma_triads(mode: u16)
    ensures
        ((mode >> 6u16) & 7) & 4 == 4 <==> mode & 0o400 != 0,
        ((mode >> 6u16) & 7) & 2 == 2 <==> mode & 0o200 != 0,
        ((mode >> 6u16) & 7) & 1 == 1 <==> mode & 0o100 != 0,
        ((mode >> 3u16) & 7) & 4 == 4 <==> mode & 0o040 != 0,
        ((mode >> 3u16) & 7) & 2 == 2 <==> mode & 0o020 != 0,
        ((mode >> 3u16) & 7) & 1 == 1 <==> mode & 0o010 != 0,
        (mode & 7) & 4 == 4 <==> mode & 0o004 != 0,
        (mode & 7) & 2 == 2 <==> mode & 0o002 != 0,
        (mode & 7) & 1 == 1 <==> mode & 0o001 != 0,
{
    assert((((mode >> 6u16) & 7) & 4 == 4 <==> mode & 0o400 != 0) && (((mode >> 6u16) & 7) & 2 == 2
        <==> mode & 0o200 != 0) && (((mode >> 6u16) & 7) & 1 == 1 <==> mode & 0o100 != 0) && (((mode
        >> 3u16) & 7) & 4 == 4 <==> mode & 0o040 != 0) && (((mode >> 3u16) & 7) & 2 == 2 <==> mode
        & 0o020 != 0) && (((mode >> 3u16) & 7) & 1 == 1 <==> mode & 0o010 != 0) && ((mode & 7) & 4
        == 4 <==> mode & 0o004 != 0) && ((mode & 7) & 2 == 2 <==> mode & 0o002 != 0) && ((mode & 7)
        & 1 == 1 <==> mode & 0o001 != 0)) by (bit_vector);
}

/// Whoever is not the superuser gets exactly the access of the one class that they belong to: the
/// owner that of the owner bits, a member of the group who is not the owner that of the group bits,
/// and everybody else that of the remaining ones.
pub proof fn access_goes_by_class(
    mode: u16,
    uid: u32,
    gid: u32,
    creds: CredsView,
    access: Access,
)
    requires
        creds.fsuid != 0,
    ensures
        creds.fsuid == uid ==> (may_access(mode, uid, gid, creds, access) <==> mode & owner_bit(
            access,
        ) != 0),
        creds.fsuid != uid && (creds.fsgid == gid || exists|i: int|
            0 <= i < creds.groups.len() && #[trigger] creds.groups[i] == gid) ==> (may_access(
            mode,
            uid,
            gid,
            creds,
            access,
        ) <==> mode & group_bit(access) != 0),
        creds.fsuid != uid && creds.fsgid != gid && (forall|i: int|
            0 <= i < creds.groups.len() ==> #[trigger] creds.groups[i] != gid) ==> (may_access(
            mode,
            uid,
            gid,
            creds,
            access,
        ) <==> mode & other_bit(access) != 0),
{
    lemma_triads(mode);
    if exists|i: int| 0 <= i < creds.groups.len() && #[trigger] creds.groups[i] == gid {
        let i = choose|i: int| 0 <= i < creds.groups.len() && #[trigger] creds.groups[i] == gid;
        assert(creds.groups.contains(gid));
    }
}

/// The superuser may read and write everything, enter every directory, and execute what somebody
/// may execute.
pub proof fn superuser_access(mode: u16, uid: u32, gid: u32, creds: CredsView)
    requires
        creds.fsuid == 0,
    ensures
        may_access(mode, uid, gid, creds, Access::Read),
        may_access(mode, uid, gid, creds, Access::Write),
        may_access(mode, uid, gid, creds, Access::Exec) <==> mode & 0o111 != 0 || mode & 0o170000
            == 0o040000,
{
    lemma_types(mode);
}

/// The credentials of a process: its user and its group count for access, and it is in no group but
/// its own.
pub proof fn plain_credentials(uid: u32, gid: u32)
    ensures
        creds_of(uid, gid).fsuid == uid,
        creds_of(uid, gid).fsgid == gid,
        creds_of(uid, gid).uid == uid,
        creds_of(uid, gid).gid == gid,
        forall|g: u32| creds_of(uid, gid).groups.contains(g) <==> g == gid,
{
    assert(creds_of(uid, gid).groups[0] == gid);
}

/// `access` on a path grants what every single bit of the request is granted.
pub proof fn access_asks_for_each_bit(v: FsView, at: Place, path: Seq<u8>, mode: u32)
    requires
        stat_at(v, at, path, true) is Ok,
    ensures
        ({
            let m = v.nodes[stat_at(v, at, path, true)->Ok_0].meta;
            let r = access_at(v, at, path, mode);
            &&& r is Ok <==> {
                &&& mode & 4 != 0 ==> may_access(m.mode, m.uid, m.gid, at.creds, Access::Read)
                &&& mode & 2 != 0 ==> may_access(m.mode, m.uid, m.gid, at.creds, Access::Write)
                &&& mode & 1 != 0 ==> may_access(m.mode, m.uid, m.gid, at.creds, Access::Exec)
            }
            &&& r is Err ==> r == Err::<(), i32>(EACCES)
        }),
{
}

/// Where a path leads to no file, neither does `access`.
pub proof fn access_needs_the_file(v: FsView, at: Place, path: Seq<u8>, mode: u32)
    requires
        stat_at(v, at, path, true) is Err,
    ensures
        access_at(v, at, path, mode) == Err::<(), i32>(stat_at(v, at, path, true)->Err_0),
{
}

proof fn lemma_types(mode: u16)
    ensures
        type_of_mode(mode) is Directory <==> mode & 0o170000 == 0o040000,
        type_of_mode(mode) is Symlink <==> mode & 0o170000 == 0o120000,
        type_of_mode(mode) is BlockDevice <==> mode & 0o170000 == 0o060000,
        type_of_mode(mode) is CharDevice <==> mode & 0o170000 == 0o020000,
        type_of_mode(mode) is Fifo <==> mode & 0o170000 == 0o010000,
        type_of_mode(mode) is Socket <==> mode & 0o170000 == 0o140000,
{
}

/// The type of a file is that of its type bits; a file without any known type is a regular one.
pub proof fn types_by_their_bits(mode: u16)
    ensures
        type_of_mode(mode) is Directory <==> mode & 0o170000 == 0o040000,
        type_of_mode(mode) is Symlink <==> mode & 0o170000 == 0o120000,
        type_of_mode(mode) is BlockDevice <==> mode & 0o170000 == 0o060000,
        type_of_mode(mode) is CharDevice <==> mode & 0o170000 == 0o020000,
        type_of_mode(mode) is Fifo <==> mode & 0o170000 == 0o010000,
        type_of_mode(mode) is Socket <==> mode & 0o170000 == 0o140000,
        mode & 0o170000 == 0o100000 ==> type_of_mode(mode) is File,
        mode_of_type(FileType::File) == 0o100000,
        mode_of_type(FileType::Directory) == 0o040000,
        mode_of_type(FileType::Symlink) == 0o120000,
        mode_of_type(FileType::BlockDevice) == 0o060000,
        mode_of_type(FileType::CharDevice) == 0o020000,
        mode_of_type(FileType::Fifo) == 0o010000,
        mode_of_type(FileType::Socket) == 0o140000,
        mode != 0 ==> some_mode(mode) == mode,
        some_mode(0) == 0o100000,
{
    lemma_types(mode);
}

/// A mask takes away its own bits and no others, and no type bit is left.
pub proof fn mask_keeps_the_rest(mode: u16, umask: u16)
    ensures
        masked_mode(mode, umask) & umask == 0,
        masked_mode(mode, umask) & !0o7777u16 == 0,
        masked_mode(mode, umask) | (mode & 0o7777 & umask) == mode & 0o7777,
{
    assert(((mode & 0o7777u16) & !umask) & umask == 0 && ((mode & 0o7777u16) & !umask) & !0o7777u16
        == 0 && ((mode & 0o7777u16) & !umask) | (mode & 0o7777 & umask) == mode & 0o7777)
        by (bit_vector);
}

/// The two low bits of the open flags say whether a file is read, written, or both; each other bit
/// stands for one option.
pub proof fn flags_ask_for_options(flags: i32, mode: u16)
    ensures
        ({
            let o = options_of(flags, mode);
            &&& flags & 3 == 0 ==> o.read && !o.write
            &&& flags & 3 == 1 ==> !o.read && o.write
            &&& flags & 3 == 2 ==> o.read && o.write
            &&& flags & 3 == 3 ==> !o.read && !o.write
            &&& o.create <==> flags & 0o100 != 0
            &&& o.create_new <==> flags & 0o100 != 0 && flags & 0o200 != 0
            &&& o.truncate <==> flags & 0o1000 != 0
            &&& o.append <==> flags & 0o2000 != 0
            &&& o.directory <==> flags & 0o200000 != 0
            &&& o.nofollow <==> flags & 0o400000 != 0
            &&& o.mode == mode
        }),
        flags & 3 == 0 ==> can_read(flags) && !can_write(flags),
        flags & 3 == 1 ==> !can_read(flags) && can_write(flags),
        flags & 3 == 2 ==> can_read(flags) && can_write(flags),
{
    assert(flags & 3 == 0 || flags & 3 == 1 || flags & 3 == 2 || flags & 3 == 3) by (bit_vector);
}

/// The flags that stand for options ask for these options again. Whoever asks for neither reading
/// nor writing may read; a new file is asked for together with creating one.
pub proof fn options_survive_flags(o: OpenOptions)
    ensures
        ({
            let p = options_of(flags_of(o), o.mode);
            &&& p.write == o.write
            &&& p.read == (o.read || !o.write)
            &&& p.append == o.append
            &&& p.truncate == o.truncate
            &&& p.create == o.create
            &&& p.create_new == (o.create && o.create_new)
            &&& p.nofollow == o.nofollow
            &&& p.directory == o.directory
            &&& p.mode == o.mode
        }),
        can_write(flags_of(o)) <==> o.write,
        can_read(flags_of(o)) <==> o.read || !o.write,
{
    let acc: i32 = if o.read && o.write {
        2
    } else if o.write {
        1
    } else {
        0
    };
    let a: i32 = if o.append {
        0o2000
    } else {
        0
    };
    let t: i32 = if o.truncate {
        0o1000
    } else {
        0
    };
    let c: i32 = if o.create {
        0o100
    } else {
        0
    };
    let n: i32 = if o.create_new {
        0o200
    } else {
        0
    };
    let f: i32 = if o.nofollow {
        0o400000
    } else {
        0
    };
    let d: i32 = if o.directory {
        0o200000
    } else {
        0
    };
    let all = acc | a | t | c | n | f | d;
    assert(forall|x: i32| #[trigger] (x | 0) == x) by (bit_vector);
    assert(all == flags_of(o));
    assert(all & 3 == acc && all & 0o2000 == a && all & 0o1000 == t && all & 0o100 == c && all
        & 0o200 == n && all & 0o400000 == f && all & 0o200000 == d) by (bit_vector)
        requires
            acc == 0 || acc == 1 || acc == 2,
            a == 0 || a == 0o2000,
            t == 0 || t == 0o1000,
            c == 0 || c == 0o100,
            n == 0 || n == 0o200,
            f == 0 || f == 0o400000,
            d == 0 || d == 0o200000,
            all == acc | a | t | c | n | f | d,
    ;
}

/// A position counts from the start, from where the handle stands, or from the end of the file.
pub proof fn seeks_count_from_their_start(o: u64, d: i64, cur: u64, size: int)
    ensures
        seek_to(SeekFrom::Start(o), cur, size) == o,
        seek_to(SeekFrom::Current(d), cur, size) - cur == d,
        seek_to(SeekFrom::End(d), cur, size) - size == d,
{
}

/// A device number holds the low twelve bits of the major number from bit 8 on, and the low eight
/// bits of the minor number in front.
pub proof fn small_device_numbers(major: u64, minor: u64)
    requires
        major < 0x1000,
        minor < 0x100,
    ensures
        dev_of(major, minor) == major * 256 + minor,
        major_of(dev_of(major, minor)) == major,
        minor_of(dev_of(major, minor)) == minor,
{
    assert(dev_of(major, minor) == major * 256 + minor && major_of(dev_of(major, minor)) == major
        && minor_of(dev_of(major, minor)) == minor) by (bit_vector)
        requires
            major < 0x1000,
            minor < 0x100,
    ;
}

/// The superuser may give files away. Everybody else may at most give a file of their own to a
/// group that they are in, and leave the owner as it is.
pub proof fn who_may_give_files_away(
    owner: u32,
    uid: Option<u32>,
    gid: Option<u32>,
    creds: CredsView,
)
    ensures
        creds.fsuid == 0 ==> may_chown(owner, uid, gid, creds),
        creds.fsuid != 0 && uid is Some && uid->0 != owner ==> !may_chown(owner, uid, gid, creds),
        creds.fsuid != 0 && creds.fsuid != owner && gid is Some ==> !may_chown(
            owner,
            uid,
            gid,
            creds,
        ),
        creds.fsuid != 0 && gid is Some && gid->0 != creds.fsgid && !creds.groups.contains(gid->0)
            ==> !may_chown(owner, uid, gid, creds),
        creds.fsuid == owner && (uid is None || uid->0 == owner) && (gid is None || gid->0
            == creds.fsgid || creds.groups.contains(gid->0)) ==> may_chown(owner, uid, gid, creds),
        (uid is None || uid->0 == owner) && gid is None ==> may_chown(owner, uid, gid, creds),
{
}

} // verus!
