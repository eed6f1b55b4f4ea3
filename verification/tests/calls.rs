use linuxfile::error::{
    EBUSY, EFBIG, EINVAL, EISDIR, ELOOP, EMFILE, ENAMETOOLONG, ENODATA, ENOSPC, ENOTEMPTY,
};
use linuxfile::format::Superblock;
use linuxfile::{
    Compression, CreateOptions, Creds, FileTimes, FileType, HostOp, LinuxFile, OpenOptions,
    Permissions, SeekFrom, SyncMode, Timespec, UnixPath, AT_EMPTY_PATH, AT_FDCWD, AT_REMOVEDIR,
    EACCES, EBADF, EEXIST, EIO, ENOENT, ENOTDIR, EPERM, EROFS, F_OK, O_APPEND, O_CREAT, O_DIRECTORY,
    O_EXCL, O_NOFOLLOW, O_RDONLY, O_RDWR, O_TRUNC, O_WRONLY, R_OK, SEEK_CUR, SEEK_END, SEEK_SET,
    S_IFCHR, S_IFDIR, S_IFLNK, S_IFMT, S_IFREG, S_ISVTX, W_OK, XATTR_CREATE, XATTR_REPLACE, X_OK,
};

fn path(s: &str) -> UnixPath<'_> {
    UnixPath::new(s)
}

fn options() -> CreateOptions {
    CreateOptions::new()
        .initial_blocks(256)
        .journal_blocks(32)
        .cache_blocks(16)
        .sync(SyncMode::Ordered)
}

fn volume() -> LinuxFile {
    LinuxFile::create_with(options()).unwrap()
}

fn perform(host: &mut Vec<u8>, ops: Vec<HostOp>) {
    for op in ops {
        match op {
            HostOp::SetLen(n) => host.resize(n as usize, 0),
            HostOp::Write { offset, data } => {
                let start = offset as usize;
                let end = start + data.len();
                if host.len() < end {
                    host.resize(end, 0);
                }
                host[start..end].copy_from_slice(&data);
            }
            HostOp::SyncData | HostOp::SyncAll => {}
        }
    }
}

fn synced(fs: &mut LinuxFile) -> Vec<u8> {
    fs.sync().unwrap();
    let mut host = Vec::new();
    perform(&mut host, fs.take_ops());
    host
}

fn names(fs: &mut LinuxFile, dir: &str) -> Vec<String> {
    let mut out = Vec::new();
    let mut entries = fs.read_dir(path(dir)).unwrap();
    while let Some(e) = entries.next() {
        out.push(e.unwrap().file_name_str());
    }
    out
}

#[test]
fn new_volume_holds_an_empty_root() {
    let mut fs = LinuxFile::create().unwrap();
    assert_eq!(names(&mut fs, "/"), vec![".", ".."]);
    let st = fs.stat(path("/")).unwrap();
    assert_eq!(st.ino, 1);
    assert_eq!(st.mode, S_IFDIR | 0o755);
    assert_eq!(st.nlink, 2);
    assert_eq!(st.blocks, 0);
}

#[test]
fn overwriting_replaces_the_contents() {
    let mut fs = volume();
    fs.write(path("/f"), &vec![1u8; 10_000]).unwrap();
    fs.write(path("/f"), b"short").unwrap();
    assert_eq!(fs.read(path("/f")).unwrap(), b"short");
    fs.write(path("/f"), b"").unwrap();
    assert_eq!(fs.read(path("/f")).unwrap(), b"");
}

#[test]
fn writes_leave_other_files_alone() {
    let mut fs = volume();
    fs.write(path("/a"), &vec![1u8; 5000]).unwrap();
    fs.write(path("/b"), &vec![2u8; 5000]).unwrap();
    fs.write(path("/a"), &vec![3u8; 9000]).unwrap();
    assert_eq!(fs.read(path("/b")).unwrap(), vec![2u8; 5000]);
    assert_eq!(fs.read(path("/a")).unwrap(), vec![3u8; 9000]);
}

#[test]
fn small_files_take_no_blocks() {
    let mut fs = volume();
    fs.write(path("/small"), &vec![7u8; 128]).unwrap();
    assert_eq!(fs.stat(path("/small")).unwrap().blocks, 0);
    fs.write(path("/large"), &vec![7u8; 129]).unwrap();
    assert_eq!(fs.stat(path("/large")).unwrap().blocks, 8);
}

#[test]
fn truncation_cuts_and_fills_with_zeros() {
    let mut fs = volume();
    fs.write(path("/f"), &vec![9u8; 6000]).unwrap();
    fs.truncate(path("/f"), 100).unwrap();
    fs.truncate(path("/f"), 200).unwrap();
    let mut want = vec![9u8; 100];
    want.resize(200, 0);
    assert_eq!(fs.read(path("/f")).unwrap(), want);
    fs.set_len(path("/f"), 5000).unwrap();
    want.resize(5000, 0);
    assert_eq!(fs.read(path("/f")).unwrap(), want);
    assert_eq!(fs.truncate(path("/"), 0).unwrap_err().errno(), EISDIR);
    assert_eq!(fs.truncate(path("/f"), u64::MAX).unwrap_err().errno(), EFBIG);
}

#[test]
fn a_write_changes_its_range_only() {
    let mut fs = volume();
    let mut data: Vec<u8> = (0..20_000u32).map(|i| (i % 253) as u8).collect();
    fs.write(path("/f"), &data).unwrap();
    let mut opts = OpenOptions::new();
    opts.read(true).write(true);
    let f = fs.open_opts(path("/f"), &opts).unwrap();
    assert_eq!(f.write_at(&mut fs, &[255u8; 5000], 4090).unwrap(), 5000);
    data[4090..9090].fill(255);
    let mut buf = vec![0u8; 20_000];
    assert_eq!(f.read_at(&mut fs, &mut buf, 0).unwrap(), 20_000);
    assert_eq!(buf, data);
    let mut tail = [1u8; 10];
    assert_eq!(f.read_at(&mut fs, &mut tail, 19_995).unwrap(), 5);
    assert_eq!(&tail[5..], &[1u8; 5]);
    assert_eq!(f.read_at(&mut fs, &mut tail, 20_000).unwrap(), 0);
    f.close(&mut fs);
}

#[test]
fn handles_keep_their_positions() {
    let mut fs = volume();
    fs.write(path("/f"), b"0123456789").unwrap();
    let mut f = fs.open_file(path("/f")).unwrap();
    let mut buf = [0u8; 4];
    assert_eq!(f.read(&mut fs, &mut buf).unwrap(), 4);
    assert_eq!(&buf, b"0123");
    assert_eq!(f.seek(&fs, SeekFrom::Current(-2)).unwrap(), 2);
    assert_eq!(f.seek(&fs, SeekFrom::End(-1)).unwrap(), 9);
    assert_eq!(f.read(&mut fs, &mut buf).unwrap(), 1);
    assert_eq!(f.seek(&fs, SeekFrom::Current(-11)).unwrap_err().errno(), EINVAL);
    assert_eq!(f.pos, 10);
    assert_eq!(f.write(&mut fs, b"x").unwrap_err().errno(), EBADF);
    assert_eq!(f.set_len(&mut fs, 0).unwrap_err().errno(), EBADF);
    let g = f.try_clone(&mut fs).unwrap();
    assert_eq!((g.ino(), g.pos), (f.ino(), 0));
    f.close(&mut fs);
    g.close(&mut fs);
}

#[test]
fn append_writes_at_the_end() {
    let mut fs = volume();
    fs.write(path("/log"), b"one\n").unwrap();
    let mut opts = OpenOptions::new();
    opts.append(true);
    assert!(opts.write);
    let mut f = fs.open_opts(path("/log"), &opts).unwrap();
    f.write_all(&mut fs, b"two\n").unwrap();
    f.flush(&mut fs).unwrap();
    f.sync_data(&mut fs).unwrap();
    f.sync_all(&mut fs).unwrap();
    f.close(&mut fs);
    assert_eq!(fs.read_to_string(path("/log")).unwrap(), "one\ntwo\n");
}

#[test]
fn open_options_are_checked() {
    let mut fs = volume();
    fs.create_dir(path("/d")).unwrap();
    fs.write(path("/f"), b"x").unwrap();
    let mut opts = OpenOptions::new();
    opts.write(true).create_new(true);
    assert_eq!(fs.open_opts(path("/f"), &opts).unwrap_err().errno(), EEXIST);
    assert_eq!(fs.open_file(path("/none")).unwrap_err().errno(), ENOENT);
    assert_eq!(fs.create_file(path("/d")).unwrap_err().errno(), EISDIR);
    let mut dir = OpenOptions::new();
    dir.read(true);
    dir.directory = true;
    assert_eq!(fs.open_opts(path("/f"), &dir).unwrap_err().errno(), ENOTDIR);
    dir.truncate = true;
    assert_eq!(fs.open_opts(path("/d"), &dir).unwrap_err().errno(), EINVAL);
    let o = OpenOptions::from_linux_flags(O_RDWR | O_CREAT | O_EXCL | O_TRUNC | O_APPEND, 0o640);
    assert_eq!(
        (o.read, o.write, o.append, o.truncate, o.create, o.create_new, o.mode),
        (true, true, true, true, true, true, 0o640)
    );
    assert_eq!(o.as_flags(), O_RDWR | O_CREAT | O_EXCL | O_TRUNC | O_APPEND);
    let n = OpenOptions::from_linux_flags(O_WRONLY | O_NOFOLLOW | O_DIRECTORY, 0);
    assert_eq!((n.read, n.write, n.nofollow, n.directory), (false, true, true, true));
}

#[test]
fn text_has_to_be_utf8() {
    let mut fs = volume();
    fs.write(path("/t"), "gr\u{fc}n".as_bytes()).unwrap();
    assert_eq!(fs.read_to_string(path("/t")).unwrap(), "gr\u{fc}n");
    fs.write(path("/t"), &[0xff, 0xfe]).unwrap();
    assert_eq!(fs.read_to_string(path("/t")).unwrap_err().errno(), EINVAL);
    let bad = UnixPath::from_bytes(&[b'/', 0xff]);
    assert!(bad.as_str().is_none());
    assert_eq!(path("/t").as_str(), Some("/t"));
    fs.write(bad, b"").unwrap();
    assert!(names(&mut fs, "/").contains(&"\u{fffd}".to_string()));
}

#[test]
fn attributes_are_set_and_removed() {
    let mut fs = volume();
    fs.write(path("/f"), b"x").unwrap();
    fs.setxattr(path("/f"), "user.a", b"1", 0).unwrap();
    fs.setxattr(path("/f"), "user.b", b"2", XATTR_CREATE).unwrap();
    assert_eq!(
        fs.setxattr(path("/f"), "user.b", b"3", XATTR_CREATE).unwrap_err().errno(),
        EEXIST
    );
    assert_eq!(
        fs.setxattr(path("/f"), "user.c", b"3", XATTR_REPLACE).unwrap_err().errno(),
        ENODATA
    );
    fs.setxattr(path("/f"), "user.b", b"4", XATTR_REPLACE).unwrap();
    assert_eq!(fs.getxattr(path("/f"), "user.a").unwrap(), b"1");
    assert_eq!(fs.getxattr(path("/f"), "user.b").unwrap(), b"4");
    fs.removexattr(path("/f"), "user.a").unwrap();
    assert_eq!(fs.getxattr(path("/f"), "user.a").unwrap_err().errno(), ENODATA);
    assert_eq!(fs.removexattr(path("/f"), "user.a").unwrap_err().errno(), ENODATA);
    assert_eq!(fs.listxattr(path("/f")).unwrap(), vec!["user.b"]);
    assert_eq!(fs.setxattr(path("/f"), "", b"", 0).unwrap_err().errno(), EINVAL);
}

#[test]
fn modes_owners_and_times_are_set() {
    let mut fs = volume();
    fs.write(path("/f"), b"data").unwrap();
    fs.chmod(path("/f"), 0o4711).unwrap();
    assert_eq!(fs.stat(path("/f")).unwrap().mode, S_IFREG | 0o4711);
    fs.set_permissions(path("/f"), Permissions::from_mode(0o640)).unwrap();
    assert_eq!(fs.stat(path("/f")).unwrap().mode, S_IFREG | 0o640);
    fs.symlink(path("/f"), path("/l")).unwrap();
    fs.lchown(path("/l"), 5, 6).unwrap();
    fs.chown(path("/l"), 7, 8).unwrap();
    let (l, f) = (fs.lstat(path("/l")).unwrap(), fs.stat(path("/f")).unwrap());
    assert_eq!((l.uid, l.gid, f.uid, f.gid), (5, 6, 7, 8));
    let t = Timespec { sec: 1_000_000, nsec: 5 };
    let times = FileTimes { accessed: Some(t), modified: None, created: Some(t) };
    let before = fs.stat(path("/f")).unwrap().mtime;
    fs.set_times(path("/f"), times).unwrap();
    let st = fs.stat(path("/f")).unwrap();
    assert_eq!((st.atime, st.mtime, st.btime), (t, before, t));
    assert_eq!(fs.read(path("/f")).unwrap(), b"data");
}

#[test]
fn clock_runs() {
    let now = Timespec::now();
    assert!(now.sec > 1_600_000_000);
    assert!(now.nsec < 1_000_000_000);
    assert_eq!(now.since_epoch(), (now.sec as u64, now.nsec));
}

#[test]
fn links_lead_to_their_targets() {
    let mut fs = volume();
    fs.create_dir_all(path("/a/b")).unwrap();
    fs.write(path("/a/b/f"), b"deep").unwrap();
    fs.symlink(path("b/f"), path("/a/rel")).unwrap();
    fs.symlink(path("/a"), path("/abs")).unwrap();
    assert_eq!(fs.read(path("/abs/rel")).unwrap(), b"deep");
    assert_eq!(fs.read_link(path("/a/rel")).unwrap().as_path().as_str(), Some("b/f"));
    assert_eq!(fs.read_link(path("/a/b/f")).unwrap_err().errno(), EINVAL);
    assert_eq!(fs.canonicalize(path("/abs/b/../b")).unwrap().as_path().as_str(), Some("/a/b"));
    fs.symlink(path("/loop"), path("/loop")).unwrap();
    assert_eq!(fs.read(path("/loop")).unwrap_err().errno(), ELOOP);
    assert!(fs.lstat(path("/loop")).unwrap().is_symlink());
}

#[test]
fn hard_links_share_a_file() {
    let mut fs = volume();
    fs.write(path("/a"), b"1").unwrap();
    fs.link(path("/a"), path("/b")).unwrap();
    fs.write(path("/b"), b"22").unwrap();
    assert_eq!(fs.read(path("/a")).unwrap(), b"22");
    assert_eq!(fs.stat(path("/a")).unwrap().ino, fs.stat(path("/b")).unwrap().ino);
    fs.unlink(path("/a")).unwrap();
    assert_eq!(fs.stat(path("/b")).unwrap().nlink, 1);
    fs.create_dir(path("/d")).unwrap();
    assert_eq!(fs.link(path("/d"), path("/e")).unwrap_err().errno(), EPERM);
    assert_eq!(fs.link(path("/b"), path("/d")).unwrap_err().errno(), EEXIST);
}

#[test]
fn directories_are_created_and_removed() {
    let mut fs = volume();
    fs.create_dir(path("/d")).unwrap();
    assert_eq!(names(&mut fs, "/d"), vec![".", ".."]);
    assert_eq!(fs.stat(path("/")).unwrap().nlink, 3);
    assert_eq!(fs.create_dir(path("/d")).unwrap_err().errno(), EEXIST);
    assert_eq!(fs.create_dir(path("/x/y")).unwrap_err().errno(), ENOENT);
    fs.create_dir_all(path("/d/e/f")).unwrap();
    fs.create_dir_all(path("/d/e/f")).unwrap();
    fs.write(path("/d/file"), b"").unwrap();
    assert_eq!(fs.create_dir_all(path("/d/file")).unwrap_err().errno(), EEXIST);
    assert_eq!(fs.rmdir(path("/d")).unwrap_err().errno(), ENOTEMPTY);
    assert_eq!(fs.rmdir(path("/d/file")).unwrap_err().errno(), ENOTDIR);
    assert_eq!(fs.remove_file(path("/d/e")).unwrap_err().errno(), EISDIR);
    assert_eq!(fs.rmdir(path("/")).unwrap_err().errno(), EBUSY);
    fs.remove_dir(path("/d/e/f")).unwrap();
    fs.remove_dir_all(path("/d")).unwrap();
    fs.remove_dir_all(path("/d")).unwrap();
    assert_eq!(names(&mut fs, "/"), vec![".", ".."]);
    assert_eq!(fs.stat(path("/")).unwrap().nlink, 2);
    let long = "n".repeat(256);
    assert_eq!(fs.create_dir(path(&long)).unwrap_err().errno(), ENAMETOOLONG);
}

#[test]
fn renames_move_and_replace() {
    let mut fs = volume();
    fs.create_dir_all(path("/a/sub")).unwrap();
    fs.create_dir(path("/b")).unwrap();
    fs.write(path("/a/f"), b"new").unwrap();
    fs.write(path("/b/f"), b"old").unwrap();
    fs.rename(path("/a/f"), path("/b/f")).unwrap();
    assert_eq!(fs.read(path("/b/f")).unwrap(), b"new");
    assert!(!fs.path_exists(path("/a/f")));
    fs.rename(path("/a/sub"), path("/b/sub")).unwrap();
    assert_eq!(fs.canonicalize(path("/b/sub/..")).unwrap().as_path().as_str(), Some("/b"));
    assert_eq!(fs.stat(path("/a")).unwrap().nlink, 2);
    assert_eq!(fs.stat(path("/b")).unwrap().nlink, 3);
    assert_eq!(fs.rename(path("/b"), path("/b/sub/b")).unwrap_err().errno(), EINVAL);
    assert_eq!(fs.rename(path("/none"), path("/x")).unwrap_err().errno(), ENOENT);
    assert_eq!(fs.rename(path("/b/f"), path("/a")).unwrap_err().errno(), EISDIR);
    assert_eq!(fs.rename(path("/a"), path("/b/f")).unwrap_err().errno(), ENOTDIR);
    fs.rename(path("/b/f"), path("/b/f")).unwrap();
}

#[test]
fn copies_take_contents_and_mode() {
    let mut fs = volume();
    fs.write(path("/a"), &vec![4u8; 7000]).unwrap();
    fs.chmod(path("/a"), 0o751).unwrap();
    assert_eq!(fs.copy(path("/a"), path("/b")).unwrap(), 7000);
    assert_eq!(fs.read(path("/b")).unwrap(), vec![4u8; 7000]);
    assert_eq!(fs.stat(path("/b")).unwrap().mode & 0o7777, 0o751);
}

#[test]
fn access_asks_for_permissions() {
    let mut fs = volume();
    fs.write(path("/f"), b"").unwrap();
    fs.access(path("/f"), F_OK).unwrap();
    fs.access(path("/f"), R_OK | W_OK).unwrap();
    assert_eq!(fs.access(path("/f"), X_OK).unwrap_err().errno(), EACCES);
    assert_eq!(fs.access(path("/none"), F_OK).unwrap_err().errno(), ENOENT);
}

#[test]
fn sizes_are_reported() {
    let mut fs = volume();
    let s = fs.statfs().unwrap();
    assert_eq!((s.block_size, s.namelen, s.total_inodes), (4096, 255, 32));
    assert_eq!(s.free_inodes, 16);
    fs.write(path("/f"), &vec![1u8; 40 * 4096]).unwrap();
    let t = fs.statfs().unwrap();
    assert_eq!(s.free_blocks - t.free_blocks + (t.total_blocks - s.total_blocks), 40);
    assert_eq!(fs.record_blocks().unwrap(), 8);
    assert_eq!(fs.compression().unwrap(), Compression::Off);
}

#[test]
fn inodes_are_used_again() {
    let mut fs = volume();
    for i in 0..100 {
        fs.write(path(&format!("/f{i}")), b"x").unwrap();
    }
    assert_eq!(fs.statfs().unwrap().total_inodes % 16, 0);
    let ino = fs.stat(path("/f50")).unwrap().ino;
    fs.unlink(path("/f50")).unwrap();
    fs.write(path("/again"), b"y").unwrap();
    assert_eq!(fs.stat(path("/again")).unwrap().ino, ino);
    for i in (0..100).filter(|i| *i != 50) {
        assert_eq!(fs.read(path(&format!("/f{i}"))).unwrap(), b"x");
    }
}

#[test]
fn read_only_mounts_change_nothing() {
    let mut fs = volume();
    fs.write(path("/f"), b"kept").unwrap();
    let host = synced(&mut fs);
    let mut ro = LinuxFile::open_read_only(host).unwrap();
    assert_eq!(ro.write(path("/f"), b"x").unwrap_err().errno(), EROFS);
    assert_eq!(ro.create_dir(path("/d")).unwrap_err().errno(), EROFS);
    assert_eq!(ro.unlink(path("/f")).unwrap_err().errno(), EROFS);
    assert_eq!(ro.chmod(path("/f"), 0).unwrap_err().errno(), EROFS);
    assert_eq!(ro.read(path("/f")).unwrap(), b"kept");
    ro.flush_all().unwrap();
    assert!(ro.take_ops().is_empty());
}

#[test]
fn nothing_is_above_the_root() {
    let mut fs = volume();
    fs.write(path("/x"), b"at the top").unwrap();
    assert_eq!(fs.read(path("/../x")).unwrap(), b"at the top");
    assert_eq!(fs.read(path("/../../x")).unwrap(), b"at the top");
    assert_eq!(fs.metadata(path("/..")).unwrap().ino(), fs.metadata(path("/")).unwrap().ino());
}

#[test]
fn reopened_volume_has_the_same_files() {
    let mut fs = LinuxFile::create_with(options().compression(Compression::Lz4)).unwrap();
    fs.create_dir_all(path("/etc/init")).unwrap();
    fs.write(path("/etc/big"), &vec![b'z'; 200_000]).unwrap();
    fs.write(path("/etc/small"), b"tiny").unwrap();
    fs.symlink(path("big"), path("/etc/link")).unwrap();
    fs.setxattr(path("/etc/small"), "user.k", b"v", 0).unwrap();
    fs.chmod(path("/etc/small"), 0o600).unwrap();
    fs.mknod(path("/etc/dev"), S_IFCHR | 0o600, linuxfile::make_dev(4, 65)).unwrap();
    for i in 0..40u64 {
        let f = fs.create_file(path("/etc/holes")).unwrap();
        f.close(&mut fs);
        let mut opts = OpenOptions::new();
        opts.write(true);
        let f = fs.open_opts(path("/etc/holes"), &opts).unwrap();
        for k in 0..=i {
            f.write_at(&mut fs, &[k as u8 + 1], k * 131_072).unwrap();
        }
        f.close(&mut fs);
    }
    let holes = fs.read(path("/etc/holes")).unwrap();
    let host = synced(&mut fs);
    assert_eq!(host.len() as u64, fs.image_len().unwrap());
    let mut again = LinuxFile::open(host).unwrap();
    assert_eq!(again.read(path("/etc/link")).unwrap(), vec![b'z'; 200_000]);
    assert_eq!(again.read(path("/etc/small")).unwrap(), b"tiny");
    assert_eq!(again.getxattr(path("/etc/small"), "user.k").unwrap(), b"v");
    assert_eq!(again.stat(path("/etc/dev")).unwrap().rdev, linuxfile::make_dev(4, 65));
    assert_eq!(again.read(path("/etc/holes")).unwrap(), holes);
    for name in ["/", "/etc", "/etc/big", "/etc/small", "/etc/link", "/etc/init", "/etc/dev"] {
        assert_eq!(again.lstat(path(name)).unwrap(), fs.lstat(path(name)).unwrap());
    }
    again.write(path("/etc/more"), &vec![5u8; 10_000]).unwrap();
    let mut host = synced(&mut fs);
    perform(&mut host, again.take_ops());
    assert_eq!(again.read(path("/etc/big")).unwrap(), vec![b'z'; 200_000]);
}

#[test]
fn copy_of_the_superblock_is_used() {
    let mut fs = volume();
    fs.write(path("/f"), b"safe").unwrap();
    let mut host = synced(&mut fs);
    host[0] ^= 0xff;
    let mut again = LinuxFile::open(host.clone()).unwrap();
    assert_eq!(again.read(path("/f")).unwrap(), b"safe");
    host[33 * 4096] ^= 0xff;
    assert_eq!(LinuxFile::open(host).err().unwrap().errno(), EIO);
    assert_eq!(LinuxFile::open(Vec::new()).err().unwrap().errno(), EIO);
}

#[test]
fn committed_inodes_are_found_after_a_crash() {
    let mut fs = volume();
    fs.write(path("/old"), b"old").unwrap();
    let mut host = synced(&mut fs);
    let sb = Superblock::decode(&host[..4096]).unwrap();
    let table = sb.inode_table_extents[0].physical as usize * 4096;
    let slots = host[table..table + 8192].to_vec();
    fs.write(path("/new"), &vec![7u8; 50_000]).unwrap();
    fs.sync().unwrap();
    let mut early = 0;
    for op in fs.take_ops() {
        perform(&mut host, vec![op]);
        let mut again = match LinuxFile::open(host.clone()) {
            Ok(again) => again,
            Err(_) => continue,
        };
        assert_eq!(again.read(path("/old")).unwrap(), b"old");
        if again.path_exists(path("/new")) {
            assert_eq!(again.read(path("/new")).unwrap(), vec![7u8; 50_000]);
            if host[table..table + 8192] == slots {
                early += 1;
            }
        }
    }
    assert!(early > 0);
    let mut again = LinuxFile::open(host).unwrap();
    assert_eq!(again.read(path("/new")).unwrap(), vec![7u8; 50_000]);
}

#[test]
fn files_without_type_are_kept() {
    let mut fs = volume();
    fs.mknod(path("/z"), 0, 0).unwrap();
    assert_eq!(fs.stat(path("/z")).unwrap().mode, S_IFREG);
    fs.chmod(path("/z"), 0).unwrap();
    let mut again = LinuxFile::open(synced(&mut fs)).unwrap();
    assert_eq!(again.stat(path("/z")).unwrap().mode, S_IFREG);
}

#[test]
fn many_files_are_kept() {
    let mut fs = LinuxFile::create_with(options().sync(SyncMode::Deferred)).unwrap();
    for i in 0..1200 {
        fs.write(path(&format!("/f{i}")), &vec![i as u8; 5000]).unwrap();
    }
    assert!(fs.inner.sb.inode_table_extents.len() <= 16);
    let mut again = LinuxFile::open(synced(&mut fs)).unwrap();
    assert!(!again.path_exists(path("/f1200")));
    for i in 0..1200 {
        assert_eq!(again.read(path(&format!("/f{i}"))).unwrap(), vec![i as u8; 5000]);
    }
}

#[test]
fn small_files_take_no_block() {
    let mut fs = volume();
    let mut f = fs.create_file(path("/f")).unwrap();
    f.write(&mut fs, &[7u8; 128]).unwrap();
    assert_eq!(fs.metadata(path("/f")).unwrap().stat.blocks, 0);
    f.write(&mut fs, &[7u8]).unwrap();
    let m = fs.metadata(path("/f")).unwrap();
    assert_eq!((m.len(), m.stat.blocks), (129, 8));
}

#[test]
fn full_sync_forces_the_journal_first() {
    let mut fs = LinuxFile::create_with(options().sync(SyncMode::Full)).unwrap();
    fs.take_ops();
    let table = fs.inner.sb.inode_table_extents[0].physical * 4096;
    fs.write(path("/f"), b"data").unwrap();
    fs.flush_all().unwrap();
    let ops = fs.take_ops();
    let journal = |op: &HostOp| matches!(op, HostOp::Write { offset, data } if *offset >= 4096
        && *offset < 33 * 4096 && data.starts_with(b"JRNL"));
    let slots = |op: &HostOp| matches!(op, HostOp::Write { offset, .. } if *offset >= table
        && *offset < table + 8192);
    let record = ops.iter().position(journal).unwrap();
    assert!(matches!(ops[record + 1], HostOp::SyncData));
    assert!(ops.iter().position(slots).unwrap() > record + 1);
    assert!(matches!(ops.last().unwrap(), HostOp::SyncAll));
}

#[test]
fn options_size_the_cache() {
    let mut fs = LinuxFile::create_with(options().cache_blocks(20)).unwrap();
    assert_eq!(fs.inner.vol.cache.capacity, 20);
    fs.write(path("/f"), &vec![3u8; 400_000]).unwrap();
    assert_eq!(fs.inner.vol.cache.map.len(), 20);
    let host = synced(&mut fs);
    let again = LinuxFile::open_with(host, true, options().cache_blocks(3)).unwrap();
    assert_eq!(again.inner.vol.cache.capacity, 16);
}

#[test]
fn damaged_maps_are_refused() {
    let mut fs = volume();
    fs.write(path("/f"), &vec![1u8; 20_000]).unwrap();
    let mut host = synced(&mut fs);
    let sb = Superblock::decode(&host[..4096]).unwrap();
    host[sb.alloc_block as usize * 4096] ^= 0xff;
    assert_eq!(LinuxFile::open(host).err().unwrap().errno(), EIO);
}

#[test]
fn damaged_records_cannot_be_read() {
    let mut fs = LinuxFile::create_with(options().compression(Compression::Lz4)).unwrap();
    fs.write(path("/bad"), &vec![b'a'; 65_536]).unwrap();
    fs.write(path("/good"), &vec![b'b'; 65_536]).unwrap();
    let mut host = synced(&mut fs);
    // A record starts at a block, with its magic number in a header of 20 bytes.
    let at = (34..host.len() / 4096).find(|b| host[b * 4096..].starts_with(b"LFC1")).unwrap();
    host[at * 4096 + 20] ^= 0xff;
    let mut again = LinuxFile::open(host).unwrap();
    assert_eq!(again.read(path("/bad")).unwrap_err().errno(), EIO);
    assert_eq!(again.read(path("/good")).unwrap(), vec![b'b'; 65_536]);
    // What fails on the way leaves the other files alone.
    assert_eq!(again.copy(path("/bad"), path("/good")).unwrap_err().errno(), EIO);
    assert_eq!(again.read(path("/good")).unwrap(), vec![b'b'; 65_536]);
    assert_eq!(names(&mut again, "/"), vec![".", "..", "bad", "good"]);
}

#[test]
fn host_operations_lead_to_the_image() {
    let mut fs = volume();
    let mut host = Vec::new();
    perform(&mut host, fs.take_ops());
    assert_eq!(host.len() as u64, fs.image_len().unwrap());
    for i in 0..20 {
        fs.write(path(&format!("/f{i}")), &vec![i as u8; 30_000]).unwrap();
        fs.sync().unwrap();
        perform(&mut host, fs.take_ops());
    }
    assert_eq!(host.len() as u64, fs.image_len().unwrap());
    let mut again = LinuxFile::open(host).unwrap();
    for i in 0..20 {
        assert_eq!(again.read(path(&format!("/f{i}"))).unwrap(), vec![i as u8; 30_000]);
    }
}

#[test]
fn sync_modes_ask_for_syncs() {
    let mut full = LinuxFile::create_with(options().sync(SyncMode::Full)).unwrap();
    full.write(path("/f"), b"x").unwrap();
    full.flush_all().unwrap();
    assert!(matches!(full.take_ops().last(), Some(HostOp::SyncAll)));
    let mut ordered = volume();
    ordered.take_ops();
    ordered.write(path("/f"), &vec![0x5a; 4096]).unwrap();
    ordered.flush_all().unwrap();
    let ops = ordered.take_ops();
    let data = ops.iter().position(
        |op| matches!(op, HostOp::Write { data, .. } if data.len() == 4096 && data[0] == 0x5a),
    );
    let commit = ops.iter().position(
        |op| matches!(op, HostOp::Write { data, .. } if data.starts_with(b"JRNL")),
    );
    assert!(data.unwrap() < commit.unwrap());
}

#[test]
fn context_descriptors() {
    let mut fs = volume();
    let mut ctx = fs.context(Creds::root());
    ctx.mkdir(&mut fs, path("/d"), 0o777).unwrap();
    let dir = ctx.open(&mut fs, path("/d"), O_RDONLY | O_DIRECTORY, 0).unwrap();
    assert_eq!(dir, 3);
    let fd = ctx.openat(&mut fs, dir, path("f"), O_RDWR | O_CREAT, 0o666).unwrap();
    assert_eq!(ctx.write(&mut fs, fd, b"hello").unwrap(), 5);
    assert_eq!(ctx.lseek(&fs, fd, 1, SEEK_SET).unwrap(), 1);
    assert_eq!(ctx.lseek(&fs, fd, 1, SEEK_CUR).unwrap(), 2);
    assert_eq!(ctx.lseek(&fs, fd, -1, SEEK_END).unwrap(), 4);
    assert_eq!(ctx.lseek(&fs, fd, -9, SEEK_CUR).unwrap_err().errno(), EINVAL);
    assert_eq!(ctx.lseek(&fs, fd, 0, 9).unwrap_err().errno(), EINVAL);
    let mut buf = [0u8; 8];
    assert_eq!(ctx.read(&mut fs, fd, &mut buf).unwrap(), 1);
    assert_eq!(buf[0], b'o');
    let two = ctx.dup(&mut fs, fd).unwrap();
    assert_eq!(ctx.read(&mut fs, two, &mut buf).unwrap(), 5);
    assert_eq!(ctx.dup2(&mut fs, fd, 40).unwrap(), 40);
    assert_eq!(ctx.dup2(&mut fs, 40, 40).unwrap(), 40);
    assert_eq!(ctx.dup2(&mut fs, 41, 40).unwrap_err().errno(), EBADF);
    ctx.ftruncate(&mut fs, 40, 2).unwrap();
    assert_eq!(ctx.fstat(&fs, fd).unwrap().size, 2);
    ctx.fsync(&mut fs, fd).unwrap();
    let entries = ctx.getdents(&mut fs, dir).unwrap();
    assert_eq!(entries.len(), 3);
    assert_eq!(entries[2].file_name(), b"f");
    assert_eq!(entries[2].file_type, FileType::File);
    assert_eq!(ctx.getdents(&mut fs, fd).unwrap_err().errno(), EBADF);
    for n in [fd, two, 40] {
        ctx.close(&mut fs, n).unwrap();
    }
    assert_eq!(ctx.close(&mut fs, fd).unwrap_err().errno(), EBADF);
    assert_eq!(ctx.read(&mut fs, fd, &mut buf).unwrap_err().errno(), EBADF);
    ctx.fchdir(dir).unwrap();
    assert_eq!(ctx.stat(&mut fs, path("f")).unwrap().size, 2);
    assert_eq!(ctx.fstatat(&mut fs, dir, path(""), AT_EMPTY_PATH).unwrap().mode & S_IFMT, S_IFDIR);
    assert_eq!(ctx.fstatat(&mut fs, dir, path(""), 0).unwrap_err().errno(), EINVAL);
    assert_eq!(ctx.openat(&mut fs, 99, path("f"), O_RDONLY, 0).unwrap_err().errno(), EBADF);
    assert_eq!(ctx.unlinkat(&mut fs, 99, path("f"), 0).unwrap_err().errno(), EBADF);
    ctx.renameat(&mut fs, dir, path("f"), AT_FDCWD, path("g")).unwrap();
    ctx.unlinkat(&mut fs, dir, path("g"), 0).unwrap();
    ctx.mkdirat(&mut fs, dir, path("e"), 0o700).unwrap();
    ctx.unlinkat(&mut fs, dir, path("e"), AT_REMOVEDIR).unwrap();
    ctx.close(&mut fs, dir).unwrap();
    ctx.next_fd = i32::MAX;
    assert_eq!(ctx.open(&mut fs, path("/d"), O_RDONLY, 0).unwrap_err().errno(), EMFILE);
}

#[test]
fn permissions_are_checked_for_users() {
    let mut fs = volume();
    fs.create_dir(path("/secret")).unwrap();
    fs.write(path("/secret/f"), b"x").unwrap();
    fs.chmod(path("/secret"), 0o700).unwrap();
    fs.create_dir(path("/tmp")).unwrap();
    fs.chmod(path("/tmp"), 0o777 | S_ISVTX).unwrap();
    fs.write(path("/tmp/root"), b"x").unwrap();
    let mut ctx = fs.context(Creds::new(1000, 1000));
    assert!(ctx.stat(&mut fs, path("/secret/f")).is_ok());
    ctx.enable_permission_checks(&mut fs, true).unwrap();
    assert_eq!(ctx.stat(&mut fs, path("/secret/f")).unwrap_err().errno(), EACCES);
    assert_eq!(ctx.mkdir(&mut fs, path("/x"), 0o777).unwrap_err().errno(), EACCES);
    assert_eq!(ctx.unlink(&mut fs, path("/tmp/root")).unwrap_err().errno(), EACCES);
    assert_eq!(ctx.set_umask(0o027), 0o022);
    assert_eq!(ctx.umask(), 0o027);
    let fd = ctx.open(&mut fs, path("/tmp/mine"), O_WRONLY | O_CREAT, 0o666).unwrap();
    let st = ctx.fstat(&fs, fd).unwrap();
    assert_eq!((st.mode, st.uid, st.gid), (S_IFREG | 0o640, 1000, 1000));
    ctx.close(&mut fs, fd).unwrap();
    ctx.unlink(&mut fs, path("/tmp/mine")).unwrap();
    ctx.set_creds(Creds::root());
    assert_eq!(ctx.creds().uid, 0);
    assert!(ctx.stat(&mut fs, path("/secret/f")).is_ok());
}

#[test]
fn any_user_may_narrow_their_root() {
    let mut fs = volume();
    fs.create_dir_all(path("/srv/app")).unwrap();
    fs.write(path("/srv/app/f"), b"x").unwrap();
    let mut ctx = fs.context(Creds::new(1000, 1000));
    ctx.chroot(&mut fs, path("/srv")).unwrap();
    assert!(ctx.stat(&mut fs, path("/app/f")).is_ok());
    assert_eq!(ctx.stat(&mut fs, path("/srv/app/f")).unwrap_err().errno(), ENOENT);
}

#[test]
fn canonical_paths_of_files() {
    let mut fs = volume();
    fs.create_dir(path("/etc")).unwrap();
    fs.write(path("/etc/hostname"), b"h").unwrap();
    fs.symlink(path("etc"), path("/conf")).unwrap();
    assert_eq!(fs.canonicalize(path("/etc/../etc/./hostname")).unwrap().as_path().as_str(), Some("/etc/hostname"));
    assert_eq!(fs.canonicalize(path("/conf/hostname")).unwrap().as_path().as_str(), Some("/etc/hostname"));
    assert_eq!(fs.canonicalize(path("/conf")).unwrap().as_path().as_str(), Some("/etc"));
    assert_eq!(fs.canonicalize(path("/etc/none")).unwrap_err().errno(), ENOENT);
}

#[test]
fn removed_directories_give_their_inode_back() {
    let mut fs = volume();
    fs.create_dir(path("/d")).unwrap();
    let ino = fs.stat(path("/d")).unwrap().ino;
    fs.remove_dir(path("/d")).unwrap();
    fs.create_dir(path("/e")).unwrap();
    assert_eq!(fs.stat(path("/e")).unwrap().ino, ino);
    fs.create_dir(path("/f")).unwrap();
    fs.rename(path("/f"), path("/e")).unwrap();
    fs.create_dir(path("/g")).unwrap();
    assert_eq!(fs.stat(path("/g")).unwrap().ino, ino);
}

#[test]
fn chroot_confines_paths() {
    let mut fs = volume();
    fs.create_dir_all(path("/jail/in")).unwrap();
    fs.write(path("/out"), b"x").unwrap();
    fs.symlink(path("../../out"), path("/jail/in/up")).unwrap();
    fs.symlink(path("/in"), path("/jail/top")).unwrap();
    assert!(fs.stat(path("/jail/in/up")).is_ok());
    assert_eq!(fs.stat(path("/jail/top")).unwrap_err().errno(), ENOENT);
    let mut ctx = fs.context(Creds::root());
    ctx.chroot(&mut fs, path("/jail")).unwrap();
    assert_eq!(ctx.stat(&mut fs, path("/in/up")).unwrap_err().errno(), ENOENT);
    assert!(ctx.stat(&mut fs, path("/top")).unwrap().is_dir());
    ctx.unlink(&mut fs, path("/in/up")).unwrap();
    assert_eq!(ctx.stat(&mut fs, path("/../out")).unwrap_err().errno(), ENOENT);
    assert!(ctx.stat(&mut fs, path("/../../in")).is_ok());
    ctx.chdir(&mut fs, path("in")).unwrap();
    assert_eq!(ctx.chdir(&mut fs, path("none")).unwrap_err().errno(), ENOENT);
    ctx.rename(&mut fs, path("/in"), path("/on")).unwrap();
    ctx.rmdir(&mut fs, path("/on")).unwrap();
    assert_eq!(ctx.lstat(&mut fs, path("/on")).unwrap_err().errno(), ENOENT);
}

#[test]
fn unlinked_files_go_with_their_last_handle() {
    let mut fs = volume();
    fs.write(path("/f"), &vec![1u8; 50_000]).unwrap();
    let f = fs.open_file(path("/f")).unwrap();
    let ino = f.ino();
    let free = fs.statfs().unwrap().free_blocks;
    fs.unlink(path("/f")).unwrap();
    assert_eq!(f.metadata(&fs).unwrap().len(), 50_000);
    f.close(&mut fs);
    assert!(fs.statfs().unwrap().free_blocks > free);
    fs.write(path("/g"), b"").unwrap();
    assert_eq!(fs.stat(path("/g")).unwrap().ino, ino);
}

#[test]
fn compression_can_be_switched() {
    let mut fs = volume();
    let text = vec![b'q'; 100_000];
    fs.write(path("/f"), &text).unwrap();
    let raw = fs.stat(path("/f")).unwrap().blocks;
    fs.set_compression(path("/f"), Compression::Lz4).unwrap();
    assert_eq!(fs.read(path("/f")).unwrap(), text);
    fs.write(path("/f"), &text).unwrap();
    fs.sync().unwrap();
    assert!(fs.stat(path("/f")).unwrap().blocks < raw / 4);
    fs.set_compression(path("/f"), Compression::Off).unwrap();
    assert_eq!(fs.read(path("/f")).unwrap(), text);
    fs.write(path("/f"), &text).unwrap();
    assert_eq!(fs.stat(path("/f")).unwrap().blocks, raw);
    assert_eq!(fs.file_compression(path("/none")).unwrap_err().errno(), ENOENT);
    let link = S_IFLNK;
    assert_eq!(link & S_IFMT, S_IFLNK);
}

fn used(fs: &LinuxFile) -> u64 {
    let s = fs.statfs().unwrap();
    s.total_blocks - s.free_blocks
}

#[test]
fn removed_files_give_their_blocks_back() {
    for algo in [Compression::Off, Compression::Lz4] {
        let mut fs = LinuxFile::create_with(options().compression(algo)).unwrap();
        fs.write(path("/keep"), &vec![1u8; 30_000]).unwrap();
        fs.sync().unwrap();
        let before = used(&fs);
        for i in 0..20u8 {
            let text: Vec<u8> = (0..150_000u32).map(|k| (k / 7 % 251) as u8 ^ i).collect();
            fs.write(path("/x"), &text).unwrap();
            fs.setxattr(path("/x"), "user.n", &[i], 0).unwrap();
            fs.sync().unwrap();
            assert!(used(&fs) > before);
            fs.truncate(path("/x"), 70_001).unwrap();
            fs.write(path("/x"), &text[..90_000]).unwrap();
            fs.unlink(path("/x")).unwrap();
            fs.sync().unwrap();
            assert_eq!(used(&fs), before);
        }
        assert_eq!(fs.read(path("/keep")).unwrap(), vec![1u8; 30_000]);
    }
}

#[test]
fn unused_tail_goes_with_a_sync() {
    let mut fs = volume();
    fs.write(path("/big"), &vec![1u8; 4 << 20]).unwrap();
    fs.sync().unwrap();
    let large = fs.image_len().unwrap();
    fs.unlink(path("/big")).unwrap();
    fs.sync().unwrap();
    let s = fs.statfs().unwrap();
    assert!(fs.image_len().unwrap() < large);
    assert_eq!(fs.image_len().unwrap(), s.total_blocks * 4096);
    assert!(s.free_blocks >= 64);
}

#[test]
fn holes_take_no_blocks() {
    let mut fs = volume();
    let f = fs.create_file(path("/sparse")).unwrap();
    f.write_at(&mut fs, b"end", 1 << 30).unwrap();
    assert_eq!(f.stat(&fs).unwrap().blocks, 8);
    f.write_at(&mut fs, b"mid", 1 << 20).unwrap();
    assert_eq!(f.stat(&fs).unwrap().blocks, 16);
    f.close(&mut fs);
    assert_eq!(fs.stat(path("/sparse")).unwrap().size, (1 << 30) + 3);
}
