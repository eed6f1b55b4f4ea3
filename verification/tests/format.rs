use linuxfile::allocator::Allocator;
use linuxfile::cache::BlockCache;
use linuxfile::compress::{
    decompress, header_magic_bytes, normalize_record_blocks, payload_crc, try_compress,
    RecordHeader,
};
use linuxfile::crc::{crc32, crc32_update};
use linuxfile::dir::{decode_dir, encode_dir};
use linuxfile::error::{errno_info, kind_to_errno, ENAMETOOLONG, ENODATA};
use linuxfile::format::{Extent, Superblock};
use linuxfile::inode::{DataKind, Inode};
use linuxfile::journal::{replay, Journal};
use linuxfile::path::validate_name;
use linuxfile::store::Image;
use linuxfile::xattr::{decode_xattrs, encode_xattrs};
use linuxfile::{
    apply_umask, check_access, major, make_dev, minor, Access, Compression, CreateOptions, Creds,
    DirEntry, Error, ErrorKind, FileTimes, FileType, HostOp, LinuxFile, Permissions, SyncMode,
    Timespec, UnixPath, UnixPathBuf, EEXIST, EINVAL, EIO, ENOENT, ENOSPC, S_IFDIR, S_IFLNK, S_IFREG,
};

fn superblock() -> Superblock {
    let fs = LinuxFile::create_with(CreateOptions::new().journal_blocks(8)).unwrap();
    fs.inner.sb
}

#[test]
fn crc_of_known_text() {
    assert_eq!(crc32(b"123456789"), 0xcbf4_3926);
    assert_eq!(crc32(b""), 0);
    let split = crc32_update(crc32_update(0xffff_ffff, b"12345"), b"6789");
    assert_eq!(split ^ 0xffff_ffff, 0xcbf4_3926);
}

#[test]
fn device_numbers() {
    assert_eq!(make_dev(8, 1), 0x801);
    let dev = make_dev(0x1_2345, 0x6_789a);
    assert_eq!(dev, 0x0001_2000_6783_459a);
    assert_eq!((major(dev), minor(dev)), (0x1_2345, 0x6_789a));
}

#[test]
fn modes_and_umasks() {
    assert_eq!(apply_umask(S_IFREG | 0o666, 0o022), 0o644);
    assert_eq!(apply_umask(0o7777, 0o777), 0o7000);
    assert_eq!(FileType::from_mode(S_IFDIR | 0o755), FileType::Directory);
    assert_eq!(FileType::Symlink.as_mode(), S_IFLNK);
    let mut p = Permissions::from_mode(S_IFREG | 0o640);
    assert_eq!((p.mode, p.readonly()), (0o640, false));
    p.set_readonly(true);
    assert_eq!((p.mode, p.readonly()), (0o440, true));
}

#[test]
fn access_rules() {
    let user = Creds::new(7, 8);
    assert!(check_access(0o400, 7, 0, &user, Access::Read));
    assert!(!check_access(0o077, 7, 8, &user, Access::Read));
    assert!(check_access(0o020, 1, 8, &user, Access::Write));
    assert!(!check_access(0o007, 1, 8, &user, Access::Write));
    assert!(check_access(0o001, 1, 1, &user, Access::Exec));
    assert!(!check_access(0o006, 1, 1, &user, Access::Exec));
    let root = Creds::root();
    assert!(check_access(0, 1, 1, &root, Access::Write));
    assert!(!check_access(S_IFREG | 0o666, 1, 1, &root, Access::Exec));
    assert!(check_access(S_IFDIR, 1, 1, &root, Access::Exec));
    let mut member = Creds::new(7, 8);
    member.groups.push(9);
    assert!(check_access(0o040, 1, 9, &member, Access::Read));
}

#[test]
fn times() {
    assert_eq!(Timespec::from_clock(None), Timespec::zero());
    assert_eq!(Timespec::from_clock(Some((5, 6))), Timespec { sec: 5, nsec: 6 });
    assert_eq!(Timespec { sec: -5, nsec: 6 }.since_epoch(), (0, 0));
    let none = FileTimes::default();
    assert!(none.accessed.is_none() && none.modified.is_none() && none.created.is_none());
}

#[test]
fn record_sizes() {
    let sizes = [0u32, 1, 2, 3, 4, 5, 8, 9, 17, 32, 33, u32::MAX];
    let want = [2u32, 2, 2, 4, 4, 8, 8, 16, 32, 32, 32, 32];
    for (n, w) in sizes.iter().zip(want) {
        assert_eq!(normalize_record_blocks(*n), w);
    }
}

#[test]
fn compression_of_records() {
    let src = vec![3u8; 32_768];
    let (algo, payload) = try_compress(Compression::Lz4, &src);
    assert_eq!(algo, Compression::Lz4);
    assert!(payload.len() < 1000);
    assert_eq!(decompress(algo, &payload, src.len()).unwrap(), src);
    assert_eq!(decompress(algo, &payload, 100).unwrap_err().errno(), EIO);
    assert_eq!(decompress(algo, &[0xff; 10], 100).unwrap_err().errno(), EIO);
    let (off, raw) = try_compress(Compression::Off, &src);
    assert_eq!((off, raw.len()), (Compression::Off, 0));
    assert_eq!(try_compress(Compression::Lz4, b"short").0, Compression::Off);
    let mut noise = Vec::new();
    let mut x = 1u32;
    for _ in 0..8192 {
        x = x.wrapping_mul(1_664_525).wrapping_add(1_013_904_223);
        noise.push((x >> 24) as u8);
    }
    assert_eq!(try_compress(Compression::Lz4, &noise).0, Compression::Off);
}

#[test]
fn record_headers() {
    let h = RecordHeader {
        algo: Compression::Lz4,
        logical_blocks: 8,
        payload_len: 5000,
        uncompressed_len: 32_768,
        crc: payload_crc(b"123456789"),
    };
    assert_eq!(h.phys_blocks(), 2);
    let mut raw = h.encode();
    assert_eq!(&raw[..8], b"LFC1\x01\x00\x08\x00");
    assert_eq!(&raw[16..20], &0xcbf4_3926u32.to_le_bytes());
    let back = RecordHeader::parse(&raw).unwrap();
    assert_eq!((back.logical_blocks, back.payload_len, back.crc), (8, 5000, h.crc));
    raw[4] = 2;
    assert!(RecordHeader::parse(&raw).is_none());
    assert!(RecordHeader::parse(&raw[..19]).is_none());
    assert_eq!(header_magic_bytes(), b"LFC1");
    assert_eq!(Compression::ON, Compression::Lz4);
    let long = RecordHeader { payload_len: u32::MAX - 20, ..h };
    assert_eq!(long.phys_blocks(), 1_048_576);
}

#[test]
fn uncompressed_payloads_have_no_bound() {
    let src = vec![5u8; 17 << 20];
    assert_eq!(decompress(Compression::Off, &src, 3).unwrap(), vec![5u8; 3]);
    assert_eq!(decompress(Compression::Off, &[5u8], 3).unwrap(), vec![5u8, 0, 0]);
}

#[test]
fn directories_on_disk() {
    let entries = vec![
        DirEntry { ino: 1, file_type: FileType::Directory, name: b".".to_vec() },
        DirEntry { ino: 300, file_type: FileType::Symlink, name: b"name".to_vec() },
    ];
    let raw = encode_dir(&entries);
    let back = decode_dir(&raw).unwrap();
    assert_eq!(back.len(), 2);
    assert_eq!((back[1].ino, back[1].file_type), (300, FileType::Symlink));
    assert_eq!(back[1].file_name(), b"name");
    assert_eq!(back[1].path_name().as_path().as_str(), Some("name"));
    assert_eq!(decode_dir(&raw[..raw.len() - 1]).unwrap_err().errno(), EIO);
}

#[test]
fn attributes_on_disk() {
    let list = vec![(b"user.a".to_vec(), b"1".to_vec()), (b"user.b".to_vec(), Vec::new())];
    assert_eq!(decode_xattrs(&encode_xattrs(&list)), list);
    assert!(decode_xattrs(b"").is_empty());
}

#[test]
fn inodes_on_disk() {
    let now = Timespec { sec: 12, nsec: 34 };
    let mut i = Inode::new_at(77, S_IFREG | 0o640, 5, 6, now);
    i.data_kind = DataKind::Extents;
    i.size = 8192;
    i.extents = vec![Extent::new(0, 100, 2)];
    let raw = i.encode();
    assert_eq!(raw.len(), 256);
    let back = Inode::decode(77, &raw).unwrap();
    assert_eq!((back.mode, back.uid, back.gid, back.size), (S_IFREG | 0o640, 5, 6, 8192));
    assert_eq!((back.mtime, back.nlink), (now, 1));
    assert_eq!(back.extents.len(), 1);
    assert_eq!(back.extents[0].map(1), Some(101));
    let mut bad = raw.clone();
    bad[8] ^= 1;
    assert_eq!(Inode::decode(77, &bad).err().unwrap().errno(), EIO);
}

#[test]
fn extents_map_blocks() {
    let e = Extent::new(10, 200, 5);
    assert_eq!((e.logical_end(), e.physical_end(), e.phys_len()), (15, 205, 5));
    assert_eq!((e.map(9), e.map(10), e.map(14), e.map(15)), (None, Some(200), Some(204), None));
    let c = Extent::with_phys(0, 50, 8, 2, Compression::Lz4.as_u8());
    assert!(c.is_compressed());
    assert_eq!((c.logical_end(), c.physical_end(), c.phys_len()), (8, 52, 2));
}

#[test]
fn superblocks_on_disk() {
    let sb = superblock();
    let raw = sb.encode();
    assert_eq!(raw.len(), 4096);
    let back = Superblock::decode(&raw).unwrap();
    assert_eq!((back.journal_blocks, back.first_data_block, back.next_inode), (8, 10, 2));
    assert_eq!((back.journal_start(), back.backup_block(), back.first_data()), (1, 9, 10));
    assert_eq!(back.inode_table_extents.len(), 1);
    assert_eq!(back.uuid[6] >> 4, 4);
    for k in [0, 100, 2000, 4095] {
        let mut bad = raw.clone();
        bad[k] ^= 1;
        assert_eq!(Superblock::decode(&bad).err().unwrap().errno(), EIO);
    }
    assert_eq!(Superblock::decode(&raw[..100]).err().unwrap().errno(), EIO);
}

#[test]
fn journal_applies_committed_blocks() {
    let mut sb = superblock();
    sb.journal_head = 0;
    let mut image = Image::create(64 * 4096);
    let mut journal = Journal::new(&sb);
    let mut tx = journal.begin();
    tx.write_inode(3, &[1u8; 256]);
    tx.write_block(40, &[9u8; 4096]);
    journal.commit(&mut image, &mut sb, tx, true).unwrap();
    let mut open = journal.begin();
    open.write_block(41, &[9u8; 4096]);
    assert_eq!(replay(&mut image, &sb).unwrap(), 1);
    let mut buf = vec![0u8; 4096];
    image.read_block(40, &mut buf).unwrap();
    assert_eq!(buf, vec![9u8; 4096]);
    image.read_block(41, &mut buf).unwrap();
    assert_eq!(buf, vec![0u8; 4096]);
    image.read_block(10, &mut buf).unwrap();
    assert_eq!(buf[768..1024], [1u8; 256]);
    assert_eq!((buf[767], buf[1024]), (0, 0));
    let mut torn = Image::create(64 * 4096);
    let mut fresh = superblock();
    fresh.journal_head = 0;
    let mut journal = Journal::new(&fresh);
    let mut tx = journal.begin();
    tx.write_block(40, &[9u8; 4096]);
    journal.commit(&mut torn, &mut fresh, tx, true).unwrap();
    torn.write_all_at(&[8u8], 4096 + 100);
    assert_eq!(replay(&mut torn, &fresh).unwrap(), 0);
    let mut large = journal.begin();
    for b in 0..8 {
        large.write_block(b, &[0u8; 4096]);
    }
    let err = journal.commit(&mut image, &mut sb, large, false).unwrap_err();
    assert_eq!(err.errno(), EIO);
}

#[test]
fn allocator_takes_the_best_fit() {
    let mut image = Image::create(1000 * 4096);
    let mut a = Allocator::new(10, 1000);
    assert_eq!(a.allocate(&mut image, 100).unwrap(), 10);
    assert_eq!(a.allocate(&mut image, 10).unwrap(), 110);
    a.free(20, 5);
    a.free(50, 20);
    assert_eq!(a.allocate(&mut image, 5).unwrap(), 20);
    assert_eq!(a.allocate(&mut image, 6).unwrap(), 50);
    assert_eq!(a.free_blocks(), 880 + 14);
    a.reserve(60, 10);
    assert_eq!(a.free, vec![(56, 4), (120, 880)]);
    let back = Allocator::decode(&a.encode()).unwrap();
    assert_eq!((back.free, back.first_data, back.total_blocks), (a.free.clone(), 10, 1000));
    assert_eq!(Allocator::decode(b"x").err().unwrap().errno(), EIO);
    assert_eq!(a.allocate(&mut image, 0).unwrap_err().errno(), EINVAL);
    assert_eq!(a.allocate(&mut image, u64::MAX / 2).unwrap_err().errno(), ENOSPC);
    assert_eq!(a.allocate(&mut image, 900).unwrap(), 1000);
    assert_eq!(a.total_blocks(), 2048);
    assert_eq!(image.len(), 2048 * 4096);
    a.free(1000, 900);
    assert!(a.maybe_shrink(&mut image));
    assert_eq!((a.total_blocks(), image.len()), (184, 184 * 4096));
    assert!(!a.maybe_shrink(&mut image));
}

#[test]
fn cache_writes_back() {
    let mut image = Image::create(64 * 4096);
    let mut cache = BlockCache::new(8);
    cache.insert_dirty(&mut image, 5, vec![1u8; 4096]);
    cache.update(&mut image, 5, 10, &[2u8; 3]);
    let block = cache.get(&mut image, 5);
    assert_eq!(&block[9..14], &[1, 2, 2, 2, 1]);
    let mut buf = vec![0u8; 4096];
    image.read_block(5, &mut buf).unwrap();
    assert_eq!(buf, vec![0u8; 4096]);
    cache.flush_block(&mut image, 5);
    image.read_block(5, &mut buf).unwrap();
    assert_eq!(buf, block);
    cache.insert_dirty(&mut image, 6, vec![3u8; 4096]);
    cache.insert_dirty(&mut image, 7, vec![4u8; 4096]);
    cache.invalidate(6);
    cache.drop_from(7);
    assert_eq!(cache.get(&mut image, 6), vec![0u8; 4096]);
    assert_eq!(cache.get(&mut image, 7), vec![0u8; 4096]);
    for b in 0..40 {
        cache.insert_dirty(&mut image, b, vec![b as u8 + 1; 4096]);
    }
    cache.flush(&mut image);
    for b in 0..40 {
        image.read_block(b, &mut buf).unwrap();
        assert_eq!(buf, vec![b as u8 + 1; 4096]);
    }
}

#[test]
fn least_recently_used_block_leaves() {
    let mut image = Image::create(64 * 4096);
    let mut cache = BlockCache::new(1);
    assert_eq!((cache.capacity, BlockCache::new(17).capacity), (16, 17));
    for b in 0..16 {
        cache.insert_dirty(&mut image, b, vec![b as u8 + 1; 4096]);
    }
    assert_eq!(cache.get(&mut image, 0), vec![1u8; 4096]);
    assert_eq!(cache.map.len(), 16);
    cache.insert_dirty(&mut image, 20, vec![21u8; 4096]);
    assert_eq!(cache.map.len(), 16);
    assert!(!cache.map.contains_key(&1));
    assert!(cache.map.contains_key(&0));
    assert_eq!((cache.lru[0], cache.lru[14], cache.lru[15]), (2, 0, 20));
    let mut buf = vec![0u8; 4096];
    image.read_block(1, &mut buf).unwrap();
    assert_eq!(buf, vec![2u8; 4096]);
}

#[test]
fn commit_waits_where_it_is_told_to() {
    for sync in [false, true] {
        let mut sb = superblock();
        sb.journal_head = 0;
        let mut image = Image::create(64 * 4096);
        image.take_ops();
        let mut journal = Journal::new(&sb);
        let mut tx = journal.begin();
        tx.write_block(40, &[9u8; 4096]);
        journal.commit(&mut image, &mut sb, tx, sync).unwrap();
        let ops = image.take_ops();
        assert!(matches!(&ops[0], HostOp::Write { offset: 4096, data } if data.len() == 4144));
        assert_eq!(ops.len(), if sync { 2 } else { 1 });
        assert!(!sync || matches!(ops[1], HostOp::SyncData));
    }
}

#[test]
fn damaged_records_are_not_replayed() {
    let mut sb = superblock();
    sb.journal_head = 0;
    let mut image = Image::create(64 * 4096);
    let mut journal = Journal::new(&sb);
    let mut tx = journal.begin();
    tx.write_block(40, &[9u8; 4096]);
    journal.commit(&mut image, &mut sb, tx, false).unwrap();
    for k in [32, 4127, 4140, 4143] {
        let mut torn = Image::open(image.data.clone());
        let byte = torn.data[4096 + k];
        torn.write_all_at(&[byte ^ 1], 4096 + k as u64);
        let before = torn.data.clone();
        assert_eq!(replay(&mut torn, &sb).unwrap(), 0);
        assert_eq!(torn.data, before);
    }
    let before = image.data.clone();
    assert_eq!(replay(&mut image, &sb).unwrap(), 1);
    assert_eq!(image.data[40 * 4096..41 * 4096], [9u8; 4096]);
    assert_eq!(image.data[..40 * 4096], before[..40 * 4096]);
    assert_eq!(image.data[41 * 4096..], before[41 * 4096..]);
}

#[test]
fn free_ranges_are_merged() {
    let mut a = Allocator { free: vec![(4, 2), (10, 5)], first_data: 10, total_blocks: 20 };
    a.free(6, 4);
    assert_eq!(a.free, vec![(4, 11)]);
    a.free(1000, 7);
    a.free(2000, 0);
    assert_eq!(a.free, vec![(4, 11), (1000, 7)]);
    assert_eq!((a.free_blocks(), a.total_blocks()), (18, 20));
}

#[test]
fn images_grow_and_shrink() {
    let mut image = Image::create(0);
    image.write_all_at(b"hello", 10);
    assert_eq!(image.len(), 1 << 20);
    let mut buf = [0u8; 7];
    image.read_exact_at(&mut buf, 9).unwrap();
    assert_eq!(&buf, b"\0hello\0");
    assert_eq!(image.read_exact_at(&mut buf, 1 << 20).unwrap_err().errno(), EIO);
    assert_eq!(image.read_block(0, &mut buf).unwrap_err().errno(), EINVAL);
    assert_eq!(image.write_block(0, &buf).unwrap_err().errno(), EINVAL);
    image.shrink_to(4096);
    image.grow_to(4097);
    image.sync();
    image.sync_data();
    let ops = image.take_ops();
    assert!(matches!(ops[ops.len() - 2], HostOp::SyncAll));
    assert!(matches!(ops[ops.len() - 1], HostOp::SyncData));
    assert!(image.take_ops().is_empty());
}

#[test]
fn names_are_checked() {
    assert!(validate_name(b"ok").is_ok());
    assert_eq!(validate_name(b"").unwrap_err().errno(), EINVAL);
    assert_eq!(validate_name(b"a/b").unwrap_err().errno(), EINVAL);
    assert_eq!(validate_name(b"a\0b").unwrap_err().errno(), EINVAL);
    assert!(validate_name(&[b'x'; 255]).is_ok());
    assert_eq!(validate_name(&[b'x'; 256]).unwrap_err().errno(), ENAMETOOLONG);
}

#[test]
fn paths_are_taken_apart() {
    let p = UnixPath::new("/usr//lib/./x.so");
    assert!(p.is_absolute() && !p.is_root() && !p.is_empty());
    assert_eq!(p.file_name(), Some(&b"x.so"[..]));
    assert_eq!(UnixPath::new("/usr/lib").parent().unwrap().as_str(), Some("/usr"));
    assert!(UnixPath::new("/").parent().is_none());
    let j = UnixPath::new("a").join(UnixPath::new("b"));
    assert_eq!(j.as_path().as_str(), Some("a/b"));
    assert_eq!(UnixPath::new("a").join(UnixPath::new("/b")).as_path().as_str(), Some("/b"));
    let mut buf = UnixPathBuf::root();
    buf.push(UnixPath::new("x"));
    buf.push(UnixPath::new("y"));
    assert_eq!(buf.as_path().as_str(), Some("/x/y"));
    assert!(buf.pop());
    assert_eq!(buf.into_bytes(), b"/x");
}

#[test]
fn errors_carry_numbers_and_kinds() {
    let e = Error::from_errno(ENOENT);
    assert!(e.is_not_found() && !e.is_exists());
    assert_eq!((e.kind(), e.errno()), (ErrorKind::NotFound, ENOENT));
    assert!(Error::from_errno(EEXIST).is_exists());
    assert_eq!(errno_info(ENODATA), (ErrorKind::NotFound, "no data available"));
    assert_eq!(errno_info(9999), (ErrorKind::Other, "filesystem error"));
    assert_eq!(kind_to_errno(ErrorKind::InvalidData), EINVAL);
    assert_eq!(Error::from_host(ErrorKind::UnexpectedEof, "x").errno(), EIO);
}

#[test]
fn options_are_built() {
    let o = CreateOptions::new();
    assert_eq!((o.journal_blocks, o.sync, o.record_blocks), (256, SyncMode::Ordered, 8));
    let small = CreateOptions::new().journal_blocks(1).initial_blocks(1).record_blocks(3);
    let fs = LinuxFile::create_with(small).unwrap();
    assert_eq!((fs.inner.sb.journal_blocks, fs.inner.sb.first_data_block), (8, 10));
    assert_eq!((fs.inner.sb.total_blocks, fs.inner.sb.inode_count), (18, 1));
    assert_eq!(fs.inner.sb.next_inode, 2);
    assert_eq!(fs.inner.vol.image.len(), 73728);
    assert_eq!(fs.inner.sync_mode, SyncMode::Ordered);
    let wide = CreateOptions::new().journal_blocks(8).initial_blocks(1000).sync(SyncMode::Deferred);
    let wide = LinuxFile::create_with(wide).unwrap();
    assert_eq!((wide.inner.sb.total_blocks, wide.inner.sync_mode), (77, SyncMode::Deferred));
    assert_eq!(fs.record_blocks().unwrap(), 4);
    let huge = CreateOptions::new().initial_blocks(u64::MAX);
    assert_eq!(LinuxFile::create_with(huge).err().unwrap().errno(), ENOSPC);
}
