//! Making a new volume.

use std::collections::{HashMap, HashSet};

use vstd::prelude::*;

use crate::allocator::Allocator;
use crate::bytes::{le32, le64, put_u32_vec, put_u64_vec};
use crate::cache::{cache_size, BlockCache};
use crate::compress::{compression_code, normal_record_blocks, normalize_record_blocks, Compression};
use crate::dir::{dir_bytes, encode_dir, items, DirEntry};
use crate::error::{Error, Result, ENOSPC};
use crate::extents::sum_plen;
use crate::flush::{calm, first_total, rests, super_kept, untouched};
use crate::format::{
    Extent, Superblock, BLOCK_SIZE, FEATURE_COMPRESSION, FIRST_USER_INO, INLINE_MAX, ROOT_INO,
    SHRINK_SLACK_BLOCKS, VERSION,
};
use crate::inner::{
    all_bare, bare, in_place, inode_ok, node_of, places_ok, synced, table_ext_claimed, table_ok,
    Inner,
};
use crate::inode::Inode;
use crate::journal::Journal;
use crate::model::{FsView, Meta, Node};
use crate::ops::dot_items;
use crate::options::CreateOptions;
use crate::path::{dot_dot_name, dot_name};
use crate::persist::plain;
use crate::store::{block_limit, max_blocks, Image};
use crate::types::{FileType, Timespec, S_IFDIR};
use crate::volume::{accounted, Owner, Volume};

verus! {

broadcast use vstd::std_specs::hash::group_hash_axioms;

/// The number that time `now` is mixed into an identifier with.
pub open spec fn time_mix(now: Timespec) -> u32 {
    (((now.sec as u64) % 0x1_0000_0000) * 0x9E37_79B9 % 0x1_0000_0000) as u32
}

/// The identifier of a volume that is made at time `now`: the time, marked as a random UUID.
pub open spec fn uuid_of(now: Timespec) -> Seq<u8> {
    let u = le64(now.sec as u64) + le32(now.nsec) + le32(time_mix(now));
    u.update(6, (u[6] & 0x0f) | 0x40).update(8, (u[8] & 0x3f) | 0x80)
}

/// Makes an identifier for a volume out of the time.
pub fn generate_uuid(now: Timespec) -> (u: Vec<u8>)
    ensures
        u@ == uuid_of(now),
        u@.len() == 16,
{
    let sec: u64 = now.sec as u64;
    let low: u64 = sec % 0x1_0000_0000;
    proof {
        crate::bytes::lemma_le();
        assert(low * 0x9E37_79B9 <= 0xffff_ffff * 0x9E37_79B9) by (nonlinear_arith)
            requires
                low <= 0xffff_ffff,
        ;
    }
    let mix: u32 = (low * 0x9E37_79B9 % 0x1_0000_0000) as u32;
    let mut u: Vec<u8> = Vec::new();
    put_u64_vec(&mut u, sec);
    put_u32_vec(&mut u, now.nsec);
    put_u32_vec(&mut u, mix);
    assert(u@ =~= le64(sec) + le32(now.nsec) + le32(mix));
    let v: u8 = (u[6] & 0x0f) | 0x40;
    let w: u8 = (u[8] & 0x3f) | 0x80;
    u.set(6, v);
    u.set(8, w);
    u
}

/// Blocks of the journal of a new volume.
pub open spec fn new_journal_blocks(opts: CreateOptions) -> int {
    if opts.journal_blocks >= 8 {
        opts.journal_blocks as int
    } else {
        8
    }
}

/// Blocks that a new volume starts with.
pub open spec fn new_blocks(opts: CreateOptions) -> int {
    let least = new_journal_blocks(opts) + 10;
    if opts.initial_blocks >= least {
        opts.initial_blocks as int
    } else {
        least
    }
}

/// An image can hold a new volume with these options.
pub open spec fn can_create(opts: CreateOptions) -> bool {
    new_journal_blocks(opts) + 2 <= u32::MAX && new_blocks(opts) + 64 <= max_blocks()
}

/// Blocks of a new volume once its free-space map is written and what is unused at its end is cut
/// off: behind the journal stand two blocks of the inode table and one of the map.
pub open spec fn new_total(opts: CreateOptions) -> int {
    let used = new_journal_blocks(opts) + 5;
    if new_blocks(opts) - used > SHRINK_SLACK_BLOCKS {
        used + SHRINK_SLACK_BLOCKS
    } else {
        new_blocks(opts)
    }
}

/// A new volume is laid out as the options say.
pub open spec fn made_with(s: Inner, opts: CreateOptions) -> bool {
    &&& s.sync_mode == opts.sync
    &&& s.vol.cache.capacity == cache_size(opts.cache_blocks)
    &&& s.record_blocks == normal_record_blocks(opts.record_blocks)
    &&& s.sb.record_blocks == s.record_blocks
    &&& s.sb.journal_blocks == new_journal_blocks(opts)
    &&& s.sb.first_data_block == new_journal_blocks(opts) + 2
    &&& s.sb.total_blocks == new_total(opts)
    &&& s.vol.alloc.total_blocks == new_total(opts)
    &&& s.vol.image@.len() == new_total(opts) * 4096
    &&& opts.compression is Off ==> bare(s)
    &&& s.sb.inode_count == 1
    &&& s.sb.free_inode_count == 0
    &&& s.sb.root_ino == ROOT_INO
    &&& s.sb.generation == 1
    &&& s.sb.next_inode == 2
    &&& s.sb.features == if opts.compression is Off {
        0
    } else {
        FEATURE_COMPRESSION
    }
    &&& s.sb.default_compression == compression_code(opts.compression)
}

/// The root directory of a new volume.
pub open spec fn new_root(opts: CreateOptions, now: Timespec) -> Node {
    Node {
        meta: Meta {
            mode: S_IFDIR | 0o755,
            nlink: 2,
            uid: 0,
            gid: 0,
            rdev: 0,
            compression: compression_code(opts.compression),
            atime: now,
            mtime: now,
            ctime: now,
            btime: now,
        },
        data: dir_bytes(dot_items(ROOT_INO, ROOT_INO)),
        xattr: Seq::empty(),
    }
}

/// A new volume: a root directory, and nothing else.
pub open spec fn new_volume(opts: CreateOptions, now: Timespec) -> FsView {
    FsView {
        nodes: Map::empty().insert(ROOT_INO, new_root(opts, now)),
        opens: Map::empty(),
        orphans: Set::empty(),
        free_inodes: Seq::empty(),
        next_inode: 2,
        writable: true,
        check_perm: false,
        clock: now,
        default_compression: compression_code(opts.compression),
    }
}

/// The inode of a new root directory.
fn root_inode(compression: Compression, now: Timespec) -> (i: Inode)
    ensures
        i.ino == ROOT_INO,
        plain(i),
        i.size == i.inline_data@.len(),
        i.size <= INLINE_MAX,
        i.blocks == 0,
        i.flags == 0,
        i.data_kind is Inline,
        i.extents@.len() == 0,
        i.inline_data@ == dir_bytes(dot_items(ROOT_INO, ROOT_INO)),
        crate::model::meta_of(i) == (Meta {
            mode: S_IFDIR | 0o755,
            nlink: 2,
            uid: 0,
            gid: 0,
            rdev: 0,
            compression: compression_code(compression),
            atime: now,
            mtime: now,
            ctime: now,
            btime: now,
        }),
{
    let mut root = Inode::new_at(ROOT_INO, S_IFDIR | 0o755, 0, 0, now);
    root.compression = compression.as_u8();
    root.nlink = 2;
    let mut dots: Vec<DirEntry> = Vec::new();
    dots.push(DirEntry { ino: ROOT_INO, file_type: FileType::Directory, name: dot_name() });
    dots.push(DirEntry { ino: ROOT_INO, file_type: FileType::Directory, name: dot_dot_name() });
    let raw = encode_dir(dots.as_slice());
    proof {
        assert(items(dots@) =~= dot_items(ROOT_INO, ROOT_INO));
        crate::bytes::lemma_le();
        reveal_with_fuel(crate::dir::items_bytes, 3);
        let es = dot_items(ROOT_INO, ROOT_INO);
        assert(es.drop_last().drop_last().len() == 0);
        assert(raw@.len() == 40);
    }
    root.size = raw.len() as u64;
    root.inline_data = raw;
    root
}

impl Inner {
    /// Makes a new volume; fails with `ENOSPC` where an image cannot be that large.
    #[verifier::rlimit(60)]
    pub fn create(opts: &CreateOptions) -> (r: Result<Inner>)
        ensures
            match r {
                Ok(s) => {
                    &&& can_create(*opts)
                    &&& rests(s)
                    &&& s.sound()
                    &&& s@ == new_volume(*opts, s@.clock)
                    &&& s@.clock.normal()
                    &&& s.vol.lost@ == Set::<int>::empty()
                    &&& made_with(s, *opts)
                },
                Err(e) => !can_create(*opts) && e.is(ENOSPC),
            },
    {
        let journal_blocks: u32 = if opts.journal_blocks >= 8 {
            opts.journal_blocks
        } else {
            8
        };
        let limit = block_limit();
        if journal_blocks > u32::MAX - 2 {
            return Err(Error::from_errno(ENOSPC));
        }
        let first_data: u32 = 2 + journal_blocks;
        let least: u64 = first_data as u64 + 8;
        let initial: u64 = if opts.initial_blocks >= least {
            opts.initial_blocks
        } else {
            least
        };
        if initial > limit - 64 {
            return Err(Error::from_errno(ENOSPC));
        }
        let now = Timespec::now();
        let record_blocks = normalize_record_blocks(opts.record_blocks);
        let features: u64 = if opts.compression.is_off() {
            0
        } else {
            FEATURE_COMPRESSION
        };
        let image = Image::create(initial * 4096);
        let alloc = Allocator::new(first_data as u64, initial);
        let cache = BlockCache::new(opts.cache_blocks);
        let mut vol = Volume {
            image,
            cache,
            alloc,
            owner: Ghost(Map::empty()),
            lost: Ghost(Set::empty()),
        };
        let ghost v0 = vol;
        proof {
            reveal(accounted);
        }
        assert(!crate::allocator::none_fits(v0.alloc.free@, 2)) by {
            assert(v0.alloc.free@[0].1 >= 2);
        }
        let start = match vol.allocate(2, Ghost(Owner::Table(0))) {
            Ok(b) => b,
            Err(e) => return Err(e),
        };
        let mut table: Vec<Extent> = Vec::new();
        table.push(Extent::new(0, start, 2));
        let sb = Superblock {
            version: VERSION,
            block_size: BLOCK_SIZE,
            journal_blocks,
            first_data_block: first_data,
            total_blocks: initial,
            inode_count: 1,
            free_inode_count: 0,
            next_inode: FIRST_USER_INO,
            root_ino: ROOT_INO,
            generation: 1,
            uuid: generate_uuid(now),
            features,
            mtime: now,
            inode_table_extents: table,
            alloc_block: 0,
            journal_seq: 0,
            journal_head: 0,
            journal_tail: 0,
            journal_committed: 0,
            default_compression: opts.compression.as_u8(),
            record_blocks: record_blocks as u8,
        };
        let journal = Journal::new(&sb);
        let mut inodes: HashMap<u64, Inode> = HashMap::new();
        let root = root_inode(opts.compression, now);
        let ghost i1 = root;
        inodes.insert(ROOT_INO, root);
        let mut dirty: Vec<u64> = Vec::new();
        dirty.push(ROOT_INO);
        let mut s = Inner {
            vol,
            sb,
            journal,
            inodes,
            dirty_inodes: dirty,
            free_inodes: Vec::new(),
            open_count: HashMap::new(),
            orphans: HashSet::new(),
            writable: true,
            sync_mode: opts.sync,
            check_perm: false,
            default_compression: opts.compression,
            record_blocks,
            record_cache: None,
            clock: now,
        };
        proof {
            let m = s.vol.owner@;
            let t = s.table();
            assert(table_ok(m, t)) by {
                let e = t[0];
                assert forall|b: int| e.physical <= b < e.physical + e.length implies #[trigger] m.contains_key(
                    b) && m[b] == Owner::Table(e.logical + (b - e.physical)) by {}
                assert(table_ext_claimed(m, t[0]));
            }
            assert(s.inodes@ =~= Map::empty().insert(ROOT_INO, i1));
            assert(sum_plen(i1.extents@) == 0);
            assert(S_IFDIR | 0o755u16 != 0) by (bit_vector);
            assert(inode_ok(s.vol, s.record_cache, s.rb(), i1));
            assert(s.inodes_ok());
            assert(s.lists_ok()) by {
                assert forall|x: u64| #[trigger] s.dirty_inodes@.contains(x) implies s.inodes@.contains_key(
                    x,
                ) by {
                    let k = s.dirty_inodes@.index_of(x);
                }
            }
            assert(s.dirty_inodes@[0] == ROOT_INO);
            assert(s.dirty_inodes@.contains(ROOT_INO));
            assert(synced(s.vol, t, s.inodes@, s.dirty_inodes@, s.sb.next_inode));
            assert(places_ok(s.vol, s.inodes@, t, 0)) by {
                assert forall|b: int| #[trigger] m.contains_key(b) implies in_place(
                    s.vol,
                    s.inodes@,
                    t,
                    0,
                    b,
                    m[b],
                ) by {
                    assert(start <= b < start + 2);
                    crate::extents::lemma_find(t, 0, b - start);
                }
            }
            assert(s.wf());
            assert(s.sound());
            assert(calm(s));
            assert(s.vol.alloc.free@ =~= seq![
                ((first_data + 2) as u64, (initial - first_data - 2) as u64),
            ]);
            assert(untouched(s));
            assert(s.vol.whole());
            if opts.compression is Off {
                assert(0u32 & crate::format::FLAG_COMPRESSED == 0) by (bit_vector);
                reveal(all_bare);
                assert(all_bare(s.inodes@));
            }
            let n = node_of(s.vol, s.record_cache, s.rb(), i1);
            assert(n.data =~= new_root(*opts, now).data);
            assert(n.xattr =~= new_root(*opts, now).xattr);
            assert(s@.nodes =~= new_volume(*opts, now).nodes);
            assert(s@.opens =~= new_volume(*opts, now).opens);
            assert(s@.orphans =~= new_volume(*opts, now).orphans);
            assert(s@.free_inodes =~= new_volume(*opts, now).free_inodes);
        }
        let ghost s0 = s;
        match s.flush_all() {
            Ok(_) => {},
            Err(e) => {
                proof {
                    let k = s0.vol.alloc.free@.len();
                    assert(k <= 2);
                    assert(crate::allocmap::area_blocks(24 + 16 * (k as int + 1)) <= 2);
                }
                return Err(e);
            },
        }
        proof {
            assert(super_kept(s0, s));
            assert(s.vol.alloc.total_blocks == first_total(s0.vol.alloc));
            assert(made_with(s, *opts));
        }
        Ok(s)
    }
}

} // verus!
