//! More promises that span operations, on concrete volumes: shrinking, full groups,
//! counters, replay and opening, directories and their lists.

use gofs::bucket::{bucket_build, bucket_entries, HEntry};
use gofs::device::Device;
use gofs::error::FsError;
use gofs::extent::Mapping;
use gofs::fmt::{
    blk_addr, blk_split, DirEntry, Inode, Ts, CELL_FULL, DT_FILE, FMT_EMBED, FMT_EMPTY,
    FMT_EXTENT, FMT_TREE,
};
use gofs::fs::Gofs;
use gofs::journal::Txn;
use gofs::mkfs::{mkfs_with, MkfsOpts};
use gofs::record::{rec_state, rec_state_set};

const MIB: u64 = 1 << 20;
const NOW: Ts = Ts { sec: 1_750_000_000, nsec: 7 };

fn volume() -> Gofs {
    let mut dev = Device::create(0);
    let o = MkfsOpts { size: Some(32 * MIB), ..Default::default() };
    mkfs_with(&mut dev, &o, *b"0123456789abcdef", NOW).unwrap();
    Gofs::open(Device::open(dev.data, true)).unwrap()
}

fn directory() -> Inode {
    Inode { mode: 0o040755, nlink: 1, format: FMT_EMPTY, ..Default::default() }
}

fn entry(n: u64) -> DirEntry {
    DirEntry { ino: 50 + n, ftype: DT_FILE, name: format!("entry{}", n) }
}

fn at(fs: &Gofs, t: &Txn, i: &Inode, f: u64) -> Option<u64> {
    match fs.map_lookup(t, i, f).unwrap() {
        Mapping::Run { blk, .. } => Some(blk),
        Mapping::Hole(_) => None,
    }
}

// --- resizing

#[test]
fn shrinking_keeps_every_block() {
    let mut fs = volume();
    let g1 = fs.grow(48 << 20).unwrap();
    let g2 = fs.grow(64 << 20).unwrap();
    // a group with nothing in use would be retired instead of moved
    let mut t = fs.txn();
    fs.alloc_extent(&mut t, g2, 3).unwrap();
    fs.commit(t).unwrap();
    let mut kept = Vec::new();
    for ag in [0, g2] {
        for k in 0..20u32 {
            let b = blk_addr(ag, 2000 + 37 * k);
            fs.write_block(b, &vec![(k + ag) as u8 + 1; 4096]).unwrap();
            kept.push((b, vec![(k + ag) as u8 + 1; 4096]));
        }
    }
    fs.retire(g1).unwrap();
    for (b, data) in &kept {
        assert_eq!(fs.read_block(*b).unwrap(), *data);
    }
    fs.shrink(48 << 20).unwrap();
    assert_eq!(fs.dev.size, 48 * MIB);
    for (b, data) in &kept {
        assert_eq!(fs.read_block(*b).unwrap(), *data);
    }
}

#[test]
fn gaps_are_the_lowest_there_are() {
    let mut fs = volume();
    let mut gs = Vec::new();
    for k in 3..9u64 {
        gs.push(fs.grow((k * 16 * MIB) as usize).unwrap());
    }
    assert_eq!(fs.find_gap(MIB, 128 * MIB), None);
    // groups of 16 MiB from 32 MiB on; three of them go
    for k in [4, 1, 2] {
        fs.retire(gs[k]).unwrap();
    }
    assert_eq!(fs.find_gap(16 * MIB, 128 * MIB), Some(48 * MIB));
    assert_eq!(fs.find_gap(32 * MIB, 128 * MIB), Some(48 * MIB));
    assert_eq!(fs.find_gap(33 * MIB, 128 * MIB), None);
    assert_eq!(fs.find_gap(16 * MIB, 63 * MIB), None);
}

// --- allocation

#[test]
fn full_groups_are_left_alone() {
    let mut fs = volume();
    let mut t = fs.txn();
    while fs.alloc_extent(&mut t, 0, 256).is_ok() {}
    let state = |fs: &Gofs, t: &Txn| {
        let blocks: Vec<_> = t.targets().iter().map(|b| (*b, t.get(*b))).collect();
        (fs.sb.free_blocks, fs.sb.rsvd_blocks, fs.sb.full_blocks, blocks)
    };
    let before = state(&fs, &t);
    let r = fs.alloc_extent(&mut t, 0, 256);
    assert!(matches!(r, Err(FsError::NoRoom { .. } | FsError::OutOfSpace(_))));
    assert!(state(&fs, &t) == before);
}

#[test]
fn freeing_returns_the_counters_and_is_refused_twice() {
    for n in [1u64, 5, 16, 17, 100, 255, 256, 700] {
        let mut fs = volume();
        let mut t = fs.txn();
        // the arena is there already
        fs.alloc_block(&mut t, 0).unwrap();
        let counts = |fs: &Gofs| (fs.sb.free_blocks, fs.sb.rsvd_blocks, fs.sb.full_blocks);
        let before = counts(&fs);
        let b = fs.alloc_extent(&mut t, 0, n).unwrap();
        assert!(counts(&fs).2 >= before.2 + n);
        fs.free_extent(&mut t, b, n).unwrap();
        assert_eq!(counts(&fs), before, "{n}");
        assert!(fs.free_extent(&mut t, b, n).is_err());
        assert_eq!(counts(&fs), before, "{n}");
    }
}

#[test]
fn what_was_allocated_can_be_freed() {
    for n in [1u64, 2, 16, 17, 31, 255, 256, 257, 1000] {
        let mut fs = volume();
        let mut t = fs.txn();
        let counts = |fs: &Gofs| (fs.sb.free_blocks, fs.sb.rsvd_blocks, fs.sb.full_blocks);
        let before = counts(&fs);
        let b = fs.alloc_extent(&mut t, 0, n).unwrap();
        fs.free_extent(&mut t, b, n).unwrap();
        let after = counts(&fs);
        assert_eq!(after.2, before.2);
        assert_eq!(after.0 + after.1, before.0 + before.1);
        assert!(after.0 == before.0 || after.0 == before.0 - 256);
    }
}

#[test]
fn cutting_a_file_leaves_its_neighbour_alone() {
    let mut fs = volume();
    let mut t = fs.txn();
    let file = || Inode { mode: 0o100644, nlink: 1, format: FMT_EMPTY, ..Default::default() };
    let (mut a, mut b) = (file(), file());
    for k in 0..6 {
        fs.map_ensure(&mut t, 0, &mut a, 7 * k, 5).unwrap();
        fs.map_ensure(&mut t, 0, &mut b, 7 * k, 5).unwrap();
    }
    let blocks = |fs: &Gofs, t: &Txn, i: &Inode| -> Vec<u64> {
        (0..42).filter_map(|f| at(fs, t, i, f)).collect()
    };
    let (old, other) = (blocks(&fs, &t, &a), blocks(&fs, &t, &b));
    fs.map_truncate(&mut t, &mut a, 9).unwrap();
    let left = blocks(&fs, &t, &a);
    for x in &old {
        // gone blocks cannot be freed again, the others are still in use
        if !left.contains(x) {
            assert!(fs.free_extent(&mut t, *x, 1).is_err());
        }
    }
    assert_eq!(blocks(&fs, &t, &b), other);
    for x in &other {
        fs.free_extent(&mut t, *x, 1).unwrap();
    }
}

#[test]
fn cell_references_read_back() {
    let fs = volume();
    let hdr = fs.read_ag_header(0).unwrap();
    let mut t = fs.txn();
    let old: Vec<_> = (0..32).map(|c| fs.rt_ref(&t, &hdr, c).unwrap()).collect();
    fs.rt_ref_set(&mut t, &hdr, 7, (0x0102_0304, 0x0506)).unwrap();
    for c in 0..32u64 {
        let want = if c == 7 { (0x0102_0304, 0x0506) } else { old[c as usize] };
        assert_eq!(fs.rt_ref(&t, &hdr, c).unwrap(), want);
    }
}

#[test]
fn states_take_their_two_low_bits() {
    let mut rec = [0u8; 128];
    rec_state_set(&mut rec, 5, 0xfc | CELL_FULL);
    for i in 0..16 {
        assert_eq!(rec_state(&rec, i), if i == 5 { CELL_FULL } else { 0 });
    }
}

// --- growing files

#[test]
fn fresh_runs_are_the_new_ones() {
    let mut fs = volume();
    let mut t = fs.txn();
    let mut i = Inode { mode: 0o100644, nlink: 1, format: FMT_EMPTY, ..Default::default() };
    for k in 0..12u64 {
        let before: Vec<_> = (0..600).map(|f| at(&fs, &t, &i, f).is_some()).collect();
        let runs = fs.map_ensure(&mut t, 0, &mut i, 37 * k, 60).unwrap();
        let mut next = 37 * k;
        for (f, _, n, fresh) in runs {
            assert_eq!(f, next);
            for g in f..f + n {
                assert_eq!(fresh, !before[g as usize], "block {g}");
            }
            next += n;
        }
        assert_eq!(next, 37 * k + 60);
        if k % 2 == 1 {
            // and a hole in front of what comes next
            fs.map_ensure(&mut t, 0, &mut i, 37 * k + 70, 1).unwrap();
        }
    }
    assert_eq!(i.format, FMT_TREE);
}

// --- buckets

#[test]
fn buckets_give_their_entries_again() {
    let es: Vec<HEntry> = (0..3u64)
        .map(|k| HEntry { ino: k + 9, hash: k << 60, ftype: DT_FILE, name: format!("n{}", k) })
        .collect();
    // 24 bytes of header and three entries of 24 bytes
    assert!(bucket_build(95, 2, &es).is_err());
    let b = bucket_build(96, 2, &es).unwrap();
    assert_eq!((b.len(), b[16]), (96, 2));
    let back = bucket_entries(&b).unwrap();
    assert_eq!(back.len(), 3);
    for (x, y) in back.iter().zip(&es) {
        assert_eq!((x.ino, x.hash, x.ftype, &x.name), (y.ino, y.hash, y.ftype, &y.name));
    }
    assert_eq!(bucket_build(24, 0, &Vec::new()).unwrap().len(), 24);
}

// --- replay and opening

#[test]
fn replay_applies_what_is_pending() {
    let mut fs = volume();
    let (head, seq) = (fs.sb.journal_head, fs.sb.journal_seq);
    for k in 1..4u8 {
        let mut t = fs.txn();
        // the last block is written by every transaction
        fs.txn_write(&mut t, blk_addr(0, 4000 + k as u32), vec![k; 4096]);
        fs.txn_write(&mut t, blk_addr(0, 4100), vec![k; 4096]);
        fs.commit(t).unwrap();
    }
    // as if none of them had been applied
    for b in [4001, 4002, 4003, 4100] {
        fs.write_block(blk_addr(0, b), &vec![0; 4096]).unwrap();
    }
    fs.sb.journal_head = head;
    fs.sb.journal_seq = seq;
    fs.write_superblock().unwrap();
    let image = fs.dev.data.clone();
    assert_eq!(fs.journal_pending(), Ok(3));
    assert_eq!(fs.replay(), Ok(3));
    assert_eq!(fs.journal_pending(), Ok(0));
    assert_eq!(fs.sb.journal_seq, seq + 3);
    for k in 1..4u8 {
        assert_eq!(fs.read_block(blk_addr(0, 4000 + k as u32)).unwrap(), vec![k; 4096]);
    }
    assert_eq!(fs.read_block(blk_addr(0, 4100)).unwrap(), vec![3; 4096]);
    let data = fs.dev.data.clone();
    assert_eq!(fs.replay(), Ok(0));
    assert_eq!(fs.dev.data, data);
    // opening does the same, and opening again changes nothing
    let fs = Gofs::open(Device::open(image, true)).unwrap();
    assert_eq!(fs.journal_pending(), Ok(0));
    assert_eq!(fs.read_block(blk_addr(0, 4100)).unwrap(), vec![3; 4096]);
    let data = fs.dev.data.clone();
    let fs = Gofs::open(Device::open(data.clone(), true)).unwrap();
    assert_eq!(fs.dev.data, data);
}

// --- imports

#[test]
fn second_imports_are_refused() {
    let mut fs = volume();
    let ino = fs.import_at("name", &[7; 300], 0o177_755, NOW).unwrap();
    let i = fs.read_inode(ino).unwrap();
    assert_eq!((i.size, i.mode, i.nlink, i.format), (300, 0o107_755, 1, FMT_EXTENT));
    let data = fs.dev.data.clone();
    assert_eq!(fs.import_at("name", &[8; 10], 0o644, NOW), Err(FsError::Exists));
    assert_eq!(fs.dev.data, data);
    assert_eq!(fs.read_file(ino).unwrap(), vec![7; 300]);
    let ino = fs.import_at("small", &[7; 128], 0o644, NOW).unwrap();
    assert_eq!(fs.read_inode(ino).unwrap().format, FMT_EMBED);
    let ino = fs.import_at("none", &[], 0o644, NOW).unwrap();
    assert_eq!(fs.read_inode(ino).unwrap().format, FMT_EMPTY);
}

// --- directories

#[test]
fn directories_count_and_check_at_every_step() {
    let mut fs = volume();
    let root = fs.sb.root_ino;
    let mut t = fs.txn();
    let mut d = directory();
    for n in 0..200u64 {
        fs.dir_insert(&mut t, root, &mut d, &entry(n)).unwrap();
        assert_eq!(fs.dir_count(&t, &d).unwrap() as u64, n + 1);
        assert!(fs.dir_check(&t, &d).unwrap().is_empty());
    }
    // a name that is taken changes nothing
    let was = d.to_bytes();
    let blocks: Vec<_> = t.targets().iter().map(|b| (*b, t.get(*b))).collect();
    assert_eq!(fs.dir_insert(&mut t, root, &mut d, &entry(77)), Err(FsError::Exists));
    assert_eq!(d.to_bytes(), was);
    assert!(t.targets().iter().map(|b| (*b, t.get(*b))).eq(blocks));
    for n in 0..200u64 {
        let e = fs.dir_remove(&mut t, &mut d, &entry(n).name).unwrap();
        assert_eq!(e.ino, 50 + n);
        assert_eq!(fs.dir_count(&t, &d).unwrap() as u64, 199 - n);
        assert!(fs.dir_check(&t, &d).unwrap().is_empty());
    }
    assert_eq!((d.format, d.size, d.nblocks), (FMT_EMPTY, 0, 0));
    assert!(d.payload.iter().all(|&b| b == 0));
}

#[test]
fn directories_with_a_tree_keep_their_entries() {
    let mut fs = volume();
    let root = fs.sb.root_ino;
    let mut t = fs.txn();
    let mut d = directory();
    let mut n = 0u64;
    let mut more = 0u64;
    while more < 400 {
        fs.dir_insert(&mut t, root, &mut d, &entry(n)).unwrap();
        n += 1;
        if d.format == FMT_TREE {
            more += 1;
        } else {
            // blocks of others between those of the directory
            fs.alloc_block(&mut t, blk_split(root).0).unwrap();
        }
    }
    assert_eq!(fs.dir_count(&t, &d).unwrap() as u64, n);
    assert!(fs.dir_check(&t, &d).unwrap().is_empty());
    for k in 0..n {
        assert_eq!(fs.dir_find(&t, &d, &entry(k).name).unwrap().unwrap().ino, 50 + k);
    }
    // the blocks of the directory are free once it is empty
    let blocks: Vec<u64> =
        (0..d.size / 4096).filter_map(|f| at(&fs, &t, &d, f)).collect();
    assert!(blocks.len() > 8);
    for k in 0..n {
        fs.dir_remove(&mut t, &mut d, &entry(k).name).unwrap();
    }
    assert_eq!((d.format, d.size), (FMT_EMPTY, 0));
    for b in blocks {
        assert!(fs.free_extent(&mut t, b, 1).is_err());
    }
}
