use linuxfile::{
    make_dev, major, minor, Compression, CreateOptions, Creds, HostOp, LinuxFile, OpenOptions,
    SeekFrom, SyncMode, UnixPath, O_RDONLY, S_IFCHR,
};

fn path(s: &str) -> UnixPath<'_> {
    UnixPath::new(s)
}

fn options() -> CreateOptions {
    CreateOptions::default()
        .initial_blocks(256)
        .journal_blocks(32)
        .cache_blocks(64)
        .sync(SyncMode::Deferred)
}

fn tmp() -> LinuxFile {
    LinuxFile::create_with(options()).unwrap()
}

fn tmp_lz4() -> LinuxFile {
    LinuxFile::create_with(options().compression(Compression::Lz4)).unwrap()
}

/// Performs the logged operations on a host file.
fn perform(host: &mut Vec<u8>, ops: Vec<HostOp>) {
    for op in ops {
        match op {
            HostOp::SetLen(n) => host.resize(n as usize, 0),
            HostOp::Write { offset, data } => {
                let start = offset as usize;
                let end = start + data.len();
                if host.len() < end {
                    host.resize(end, 0);
                }
                host[start..end].copy_from_slice(&data);
            }
            HostOp::SyncData | HostOp::SyncAll => {}
        }
    }
}

/// The host file of a new volume that was unmounted.
fn unmount(mut fs: LinuxFile) -> Vec<u8> {
    let _ = fs.flush_all();
    let mut host = Vec::new();
    perform(&mut host, fs.take_ops());
    host
}

#[test]
fn write_read_roundtrip() {
    let mut fs = tmp();
    fs.write(path("/hello.txt"), b"world").unwrap();
    assert_eq!(fs.read(path("/hello.txt")).unwrap(), b"world");
    assert_eq!(fs.read_to_string(path("/hello.txt")).unwrap(), "world");
}

#[test]
fn directories() {
    let mut fs = tmp();
    fs.create_dir_all(path("/usr/bin")).unwrap();
    fs.write(path("/usr/bin/true"), b"").unwrap();
    assert!(fs.metadata(path("/usr/bin")).unwrap().is_dir());
    let mut names = Vec::new();
    let mut dir = fs.read_dir(path("/usr")).unwrap();
    while let Some(e) = dir.next() {
        names.push(e.unwrap().file_name_str());
    }
    assert!(names.iter().any(|n| n == "bin"));
}

#[test]
fn symlink_and_hardlink() {
    let mut fs = tmp();
    fs.write(path("/a"), b"data").unwrap();
    fs.symlink(path("/a"), path("/b")).unwrap();
    assert_eq!(fs.read(path("/b")).unwrap(), b"data");
    assert!(fs.lstat(path("/b")).unwrap().is_symlink());
    fs.hard_link(path("/a"), path("/c")).unwrap();
    assert_eq!(fs.stat(path("/c")).unwrap().nlink, 2);
    fs.remove_file(path("/a")).unwrap();
    assert_eq!(fs.read(path("/c")).unwrap(), b"data");
}

#[test]
fn rename_and_remove() {
    let mut fs = tmp();
    fs.create_dir_all(path("/var/tmp")).unwrap();
    fs.write(path("/var/tmp/x"), b"1").unwrap();
    fs.rename(path("/var/tmp/x"), path("/var/y")).unwrap();
    assert_eq!(fs.read(path("/var/y")).unwrap(), b"1");
    fs.remove_dir_all(path("/var")).unwrap();
    assert!(!fs.path_exists(path("/var")));
}

#[test]
fn sparse_and_truncate() {
    let mut fs = tmp();
    let mut opts = OpenOptions::new();
    opts.read(true).write(true).create(true).truncate(true);
    let mut f = fs.open_opts(path("/sparse"), &opts).unwrap();
    f.seek(&fs, SeekFrom::Start(1 << 20)).unwrap();
    f.write_all(&mut fs, b"end").unwrap();
    assert_eq!(f.metadata(&fs).unwrap().len(), (1 << 20) + 3);
    let mut buf = [0xffu8; 3];
    f.seek(&fs, SeekFrom::Start(0)).unwrap();
    assert_eq!(f.read(&mut fs, &mut buf).unwrap(), 3);
    assert_eq!(&buf, b"\0\0\0");
    fs.truncate(path("/sparse"), 2).unwrap();
    assert_eq!(fs.metadata(path("/sparse")).unwrap().len(), 2);
    f.close(&mut fs);
}

#[test]
fn grow_and_shrink_image() {
    let mut fs = tmp();
    let before = fs.image_len().unwrap();
    fs.write(path("/big"), &vec![0xAB; 512 * 1024]).unwrap();
    fs.sync().unwrap();
    let mid = fs.image_len().unwrap();
    assert!(mid > before, "image should grow: {before} -> {mid}");
    fs.remove_file(path("/big")).unwrap();
    fs.sync().unwrap();
    let after = fs.image_len().unwrap();
    assert!(after < mid, "image should shrink: {mid} -> {after}");
}

#[test]
fn xattr_chmod_chown_mknod() {
    let mut fs = tmp();
    fs.write(path("/f"), b"x").unwrap();
    fs.setxattr(path("/f"), "user.foo", b"bar", 0).unwrap();
    assert_eq!(fs.getxattr(path("/f"), "user.foo").unwrap(), b"bar");
    assert!(fs.listxattr(path("/f")).unwrap().contains(&"user.foo".into()));
    fs.removexattr(path("/f"), "user.foo").unwrap();
    fs.chmod(path("/f"), 0o600).unwrap();
    assert_eq!(fs.metadata(path("/f")).unwrap().permissions().mode & 0o777, 0o600);
    fs.chown(path("/f"), 1000, 1000).unwrap();
    assert_eq!(fs.metadata(path("/f")).unwrap().uid(), 1000);
    fs.mkfifo(path("/pipe"), 0o644).unwrap();
    assert!(fs.metadata(path("/pipe")).unwrap().file_type().is_fifo());
    fs.create_dir(path("/dev")).unwrap();
    fs.mknod(path("/dev/null"), S_IFCHR | 0o666, make_dev(1, 3)).unwrap();
    let st = fs.stat(path("/dev/null")).unwrap();
    assert!(st.file_type().is_char_device());
    assert_eq!(major(st.rdev), 1);
    assert_eq!(minor(st.rdev), 3);
}

#[test]
fn persist_reopen() {
    let mut fs = tmp();
    fs.create_dir_all(path("/etc")).unwrap();
    fs.write(path("/etc/os-release"), b"NAME=linuxfile\n").unwrap();
    fs.sync().unwrap();
    let host = unmount(fs);
    let mut fs = LinuxFile::open(host).unwrap();
    assert_eq!(fs.read_to_string(path("/etc/os-release")).unwrap(), "NAME=linuxfile\n");
}

#[test]
fn context_fds_and_chroot() {
    let mut fs = tmp();
    fs.create_dir_all(path("/home/app")).unwrap();
    fs.write(path("/home/app/main.rs"), b"fn main() {}").unwrap();
    let mut ctx = fs.context(Creds::root());
    ctx.chdir(&mut fs, path("/home")).unwrap();
    let fd = ctx.open(&mut fs, path("app/main.rs"), O_RDONLY, 0).unwrap();
    let mut buf = [0u8; 12];
    let n = ctx.read(&mut fs, fd, &mut buf).unwrap();
    assert_eq!(&buf[..n], b"fn main() {}");
    ctx.close(&mut fs, fd).unwrap();
    ctx.chroot(&mut fs, path("/home/app")).unwrap();
    assert!(ctx.stat(&mut fs, path("/main.rs")).is_ok());
    assert!(ctx.stat(&mut fs, path("/home")).is_err());
}

#[test]
fn unlink_while_open() {
    let mut fs = tmp();
    fs.write(path("/tmpfile"), b"keep").unwrap();
    let mut f = fs.open_file(path("/tmpfile")).unwrap();
    fs.remove_file(path("/tmpfile")).unwrap();
    assert!(!fs.path_exists(path("/tmpfile")));
    let mut buf = Vec::new();
    f.read_to_end(&mut fs, &mut buf).unwrap();
    assert_eq!(buf, b"keep");
    f.close(&mut fs);
}

#[test]
fn compression_roundtrip_and_saves_space() {
    let payload = vec![b'A'; 512 * 1024];

    let mut plain = tmp();
    plain.write(path("/big"), &payload).unwrap();
    plain.sync().unwrap();
    let plain_blocks = plain.metadata(path("/big")).unwrap().stat.blocks;

    let mut lz4 = tmp_lz4();
    assert_eq!(lz4.compression().unwrap(), Compression::Lz4);
    lz4.write(path("/big"), &payload).unwrap();
    lz4.sync().unwrap();
    assert_eq!(lz4.read(path("/big")).unwrap(), payload);
    let lz4_blocks = lz4.metadata(path("/big")).unwrap().stat.blocks;
    assert!(
        lz4_blocks < plain_blocks / 4,
        "lz4 should store far less: {lz4_blocks} vs {plain_blocks}"
    );
}

#[test]
fn compression_incompressible_and_partial_overwrite() {
    let mut fs = tmp_lz4();
    let mut data: Vec<u8> =
        (0..64 * 1024).map(|i: u32| (i.wrapping_mul(17) % 251) as u8).collect();
    fs.write(path("/rand"), &data).unwrap();
    assert_eq!(fs.read(path("/rand")).unwrap(), data);

    data[1000..1100].fill(b'Z');
    let mut opts = OpenOptions::new();
    opts.read(true).write(true);
    let mut f = fs.open_opts(path("/rand"), &opts).unwrap();
    f.seek(&fs, SeekFrom::Start(1000)).unwrap();
    f.write_all(&mut fs, &[b'Z'; 100]).unwrap();
    f.close(&mut fs);
    assert_eq!(fs.read(path("/rand")).unwrap(), data);
}

#[test]
fn compression_persist_sparse_truncate() {
    let mut fs = tmp_lz4();
    let mut opts = OpenOptions::new();
    opts.read(true).write(true).create(true);
    let mut f = fs.open_opts(path("/sparse"), &opts).unwrap();
    f.seek(&fs, SeekFrom::Start(1 << 16)).unwrap();
    f.write_all(&mut fs, &vec![b'B'; 4096]).unwrap();
    f.close(&mut fs);
    assert_eq!(fs.metadata(path("/sparse")).unwrap().len(), (1 << 16) + 4096);
    let hole = fs.read(path("/sparse")).unwrap();
    assert!(hole[..1 << 16].iter().all(|&b| b == 0));
    assert_eq!(&hole[1 << 16..], &vec![b'B'; 4096]);

    fs.truncate(path("/sparse"), 100).unwrap();
    assert_eq!(fs.metadata(path("/sparse")).unwrap().len(), 100);
    assert_eq!(fs.read(path("/sparse")).unwrap(), vec![0u8; 100]);

    fs.write(path("/keep"), &vec![b'C'; 8000]).unwrap();
    fs.sync().unwrap();
    let host = unmount(fs);
    let mut fs = LinuxFile::open(host).unwrap();
    assert_eq!(fs.file_compression(path("/keep")).unwrap(), Compression::Lz4);
    assert_eq!(fs.read(path("/keep")).unwrap(), vec![b'C'; 8000]);
}

#[test]
fn set_compression_on_existing_file() {
    let mut fs = tmp();
    fs.write(path("/f"), &vec![b'D'; 16 * 1024]).unwrap();
    fs.set_compression(path("/f"), Compression::Lz4).unwrap();
    assert_eq!(fs.file_compression(path("/f")).unwrap(), Compression::Lz4);
    fs.write(path("/f"), &vec![b'E'; 64 * 1024]).unwrap();
    fs.sync().unwrap();
    assert_eq!(fs.read(path("/f")).unwrap(), vec![b'E'; 64 * 1024]);
    let blocks = fs.metadata(path("/f")).unwrap().stat.blocks;
    assert!(blocks < (64 * 1024 / 512), "rewritten file should compress: {blocks}");
}
