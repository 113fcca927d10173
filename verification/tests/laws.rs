//! Promises that span operations, on concrete volumes: new volumes and groups,
//! imports, directories that outgrow their inode, unfinished logs, cutting
//! files.

use gofs::device::{DevOp, Device};
use gofs::error::FsError;
use gofs::extent::Mapping;
use gofs::fmt::{
    blk_addr, blk_split, DirEntry, Inode, Ts, DT_FILE, FMT_EMBED, FMT_EMPTY, FMT_EXTENT,
    FMT_TREE,
};
use gofs::fs::Gofs;
use gofs::fsck::check;
use gofs::journal::Txn;
use gofs::mkfs::{mkfs_with, MkfsOpts};

const MIB: u64 = 1 << 20;
const NOW: Ts = Ts { sec: 1_750_000_000, nsec: 7 };

fn image(o: &MkfsOpts) -> Vec<u8> {
    let mut dev = Device::create(0);
    mkfs_with(&mut dev, o, *b"0123456789abcdef", NOW).unwrap();
    dev.data
}

fn volume() -> Gofs {
    let o = MkfsOpts { size: Some(32 * MIB), ..Default::default() };
    Gofs::open(Device::open(image(&o), true)).unwrap()
}

#[test]
fn new_volumes_check_clean() {
    let base = || MkfsOpts { size: Some(64 * MIB), ..Default::default() };
    let all = [
        base(),
        MkfsOpts { blocksize: 2048, inodesize: 256, kernel: Some(vec![5; 10]), ..base() },
        MkfsOpts { blocksize: 8192, inodesize: 512, ..base() },
        MkfsOpts { journal: Some(MIB), label: "a label".into(), ..base() },
        MkfsOpts { kernel: Some(vec![5; 300_000]), ..base() },
        MkfsOpts { kernel: Some(vec![]), ..base() },
        MkfsOpts { size: Some(8 * MIB + 5), ..base() },
    ];
    for o in &all {
        let r = check(Device::open(image(o), false)).unwrap();
        assert!(r.errors.is_empty() && r.warnings.is_empty(), "{:?} {:?}", r.errors, r.warnings);
    }
}

#[test]
fn new_groups_can_be_allocated_from() {
    let mut fs = volume();
    let ag = fs.grow(64 << 20).unwrap();
    let hdr = fs.read_ag_header(ag).unwrap();
    assert_eq!((hdr.ag_num, hdr.length, hdr.full_blocks, hdr.tbl_arena), (1, 8192, 0, 0));
    // header and table take the first cell, all others are free
    assert_eq!((hdr.free_blocks, hdr.rsvd_blocks), (31 * 256, 256));
    let mut t = fs.txn();
    let a = fs.alloc_extent(&mut t, ag, 256).unwrap();
    let b = fs.alloc_block(&mut t, ag).unwrap();
    assert_eq!(a, blk_addr(ag, 256));
    assert_eq!(blk_split(b).0, ag);
    fs.commit(t).unwrap();
    assert!(check(Device::open(fs.dev.data, false)).unwrap().clean());
}

#[test]
fn imports_keep_other_files() {
    let mut fs = volume();
    let mut kept = Vec::new();
    for (k, name) in ["one", "two", "three", "four"].iter().enumerate() {
        let data = vec![k as u8 + 1; [10, 5000, 0, 3_000_000][k]];
        let ino = fs.import_at(name, &data, 0o100644, NOW).unwrap();
        kept.push((name, ino, data, fs.read_inode(ino).unwrap()));
        let list = fs.dir_entries(fs.sb.root_ino).unwrap();
        assert_eq!(list.len(), k + 1);
        for (e, (name, ino, data, inode)) in list.iter().zip(&kept) {
            assert_eq!((&e.name[..], e.ino, e.ftype), (**name, *ino, DT_FILE));
            assert_eq!(fs.read_file(*ino).unwrap(), *data);
            assert_eq!(fs.read_inode(*ino).unwrap().to_bytes(), inode.to_bytes());
        }
    }
}

#[test]
fn directories_outgrow_their_inode() {
    let mut fs = volume();
    let root = fs.sb.root_ino;
    let mut t = fs.txn();
    let mut d = Inode { mode: 0o040755, nlink: 1, format: FMT_EMPTY, ..Default::default() };
    let mut n = 0u64;
    while d.format == FMT_EMPTY || d.format == FMT_EMBED {
        let e = DirEntry { ino: 50 + n, ftype: DT_FILE, name: format!("entry{}", n) };
        fs.dir_insert(&mut t, root, &mut d, &e).unwrap();
        n += 1;
        for k in 0..n {
            let e = fs.dir_find(&t, &d, &format!("entry{}", k)).unwrap().unwrap();
            assert_eq!(e.ino, 50 + k);
        }
        assert!(fs.dir_find(&t, &d, "entry").unwrap().is_none());
    }
    // 128 bytes hold five entries of 10 + 2 * 6 bytes each
    assert_eq!((d.format, n, d.size), (FMT_EXTENT, 6, 2 * 4096));
    assert!(fs.dir_check(&t, &d).unwrap().is_empty());
}

#[test]
fn unfinished_logs_are_ignored() {
    let mut fs = volume();
    let bs = fs.sb.blocksize as usize;
    let target = blk_addr(0, 5000);
    let old = fs.dev.data.clone();
    let mut t = fs.txn();
    fs.txn_write(&mut t, target, vec![9; bs]);
    fs.commit(t).unwrap();
    // descriptor, block and commit block come before the first barrier
    let mut logged = Vec::new();
    for op in fs.dev.take_log() {
        match op {
            DevOp::Write { offset, data } => logged.push((offset as usize, data)),
            _ => break,
        }
    }
    assert_eq!(logged.len(), 3);
    for mask in 0..7usize {
        let mut crashed = old.clone();
        for (k, (at, data)) in logged.iter().enumerate() {
            if mask >> k & 1 == 1 {
                crashed[*at..*at + data.len()].copy_from_slice(data);
            }
        }
        let ro = Gofs::load(Device::open(crashed.clone(), false)).unwrap();
        assert_eq!(ro.journal_pending(), Ok(0));
        let fs = Gofs::open(Device::open(crashed.clone(), true)).unwrap();
        assert_eq!(fs.dev.data, crashed);
        assert_ne!(fs.read_block(target).unwrap(), vec![9; bs]);
    }
    // with all three the transaction is applied
    let mut crashed = old;
    for (at, data) in &logged {
        crashed[*at..*at + data.len()].copy_from_slice(data);
    }
    let fs = Gofs::open(Device::open(crashed, true)).unwrap();
    assert_eq!(fs.read_block(target).unwrap(), vec![9; bs]);
    assert_eq!(fs.journal_pending(), Ok(0));
}

fn at(fs: &Gofs, t: &Txn, i: &Inode, f: u64) -> Option<u64> {
    match fs.map_lookup(t, i, f).unwrap() {
        Mapping::Run { blk, .. } => Some(blk),
        Mapping::Hole(_) => None,
    }
}

#[test]
fn cutting_keeps_the_front_and_frees_the_tail() {
    let mut fs = volume();
    let mut t = fs.txn();
    let mut i = Inode { mode: 0o100644, nlink: 1, format: FMT_EMPTY, ..Default::default() };
    fs.map_ensure(&mut t, 0, &mut i, 0, 40).unwrap();
    fs.map_ensure(&mut t, 0, &mut i, 100, 3).unwrap();
    assert_eq!(i.format, FMT_EXTENT);
    let before: Vec<_> = (0..120).map(|f| at(&fs, &t, &i, f)).collect();
    let free = fs.sb.free_blocks;
    fs.map_truncate(&mut t, &mut i, 20).unwrap();
    let after: Vec<_> = (0..120).map(|f| at(&fs, &t, &i, f)).collect();
    assert_eq!(after[..20], before[..20]);
    assert_eq!((after[100], after[102]), (None, None));
    for f in 0..120 {
        match after[f] {
            Some(_) => assert_eq!(after[f], before[f]),
            // what is no longer mapped is free, and cannot be freed again
            None => {
                if let Some(b) = before[f] {
                    let r = fs.free_extent(&mut t, b, 1);
                    assert!(matches!(
                        r,
                        Err(FsError::NotAllocated { .. }
                            | FsError::SubcellState(_)
                            | FsError::CellState { .. })
                    ));
                }
            }
        }
    }
    assert!(fs.sb.free_blocks > free);
    fs.map_free_all(&mut t, &mut i).unwrap();
    for f in 0..20 {
        assert!(fs.free_extent(&mut t, before[f].unwrap(), 1).is_err());
    }
}

#[test]
fn inode_slots_are_handed_out_empty() {
    let mut fs = volume();
    let mut t = fs.txn();
    let slots = fs.sb.blocksize as u64 / fs.sb.inodesize as u64;
    let mut seen = Vec::new();
    for _ in 0..3 * slots {
        let ino = fs.alloc_inode(&mut t, 0).unwrap();
        assert!(!seen.contains(&ino) && ino != fs.sb.root_ino);
        let (ag, n) = blk_split(ino);
        let blk = blk_addr(ag, n / slots as u32);
        let at = (n % slots as u32) as usize * fs.sb.inodesize as usize;
        let mut b = fs.txn_read(&t, blk).unwrap();
        assert!(b[at..at + fs.sb.inodesize as usize].iter().all(|&x| x == 0));
        b[at..at + 256].copy_from_slice(&Inode::default().to_bytes());
        fs.txn_write(&mut t, blk, b);
        seen.push(ino);
    }
    // a slot that is released is the next one handed out
    let gone = seen[seen.len() - 3];
    fs.free_inode(&mut t, gone).unwrap();
    assert_eq!(fs.alloc_inode(&mut t, 0), Ok(gone));
    // a block that is empty goes back
    let free = fs.sb.free_blocks;
    let (_, n) = blk_split(gone);
    for &ino in &seen {
        if blk_split(ino).1 / slots as u32 == n / slots as u32 {
            fs.free_inode(&mut t, ino).unwrap();
        }
    }
    assert_eq!(fs.sb.free_blocks, free + 1);
}

#[test]
fn growing_trees_keep_what_they_map() {
    let mut fs = volume();
    let mut t = fs.txn();
    let mut i = Inode { mode: 0o100644, nlink: 1, format: FMT_EMPTY, ..Default::default() };
    for k in 0..10 {
        fs.map_ensure(&mut t, 0, &mut i, 40 * k, 2).unwrap();
    }
    assert_eq!(i.format, FMT_TREE);
    let level = i.payload[0];
    let old: Vec<_> = (0..500).map(|f| at(&fs, &t, &i, f)).collect();
    assert_eq!(old.iter().flatten().count(), 20);
    // inside the tree: a run is split over a node, and holes are filled
    fs.map_ensure(&mut t, 0, &mut i, 30, 60).unwrap();
    // past its end: the root is raised
    fs.map_ensure(&mut t, 0, &mut i, 30_000, 3).unwrap();
    assert!(i.payload[0] > level);
    let new: Vec<_> = (0..500).map(|f| at(&fs, &t, &i, f)).collect();
    for f in 0..500 {
        if old[f].is_some() {
            assert_eq!(new[f], old[f], "block {f} stays where it was");
        } else if (30..90).contains(&f) {
            assert!(new[f].is_some() && !old.contains(&new[f]), "block {f} is new");
        } else {
            assert_eq!(new[f], None, "block {f} is still a hole");
        }
    }
    for f in 30_000..30_003 {
        assert!(at(&fs, &t, &i, f).is_some());
    }
}

#[test]
fn cutting_trees_keeps_the_front_and_freeing_them_frees_all() {
    let mut fs = volume();
    let mut t = fs.txn();
    let mut i = Inode { mode: 0o100644, nlink: 1, format: FMT_EMPTY, ..Default::default() };
    let free = fs.sb.free_blocks;
    for k in 0..10 {
        fs.map_ensure(&mut t, 0, &mut i, 40 * k, 2).unwrap();
    }
    fs.map_ensure(&mut t, 0, &mut i, 30, 60).unwrap();
    assert_eq!(i.format, FMT_TREE);
    let old: Vec<_> = (0..500).map(|f| at(&fs, &t, &i, f)).collect();
    for b in old.iter().flatten() {
        fs.txn_write(&mut t, *b, vec![*b as u8; 4096]);
    }
    fs.map_truncate(&mut t, &mut i, 85).unwrap();
    let new: Vec<_> = (0..500).map(|f| at(&fs, &t, &i, f)).collect();
    assert_eq!(new[..85], old[..85]);
    assert!(new[160..].iter().all(|b| b.is_none()));
    // the data is where it was
    for b in old.iter().flatten() {
        assert_eq!(fs.txn_read(&t, *b).unwrap(), vec![*b as u8; 4096]);
    }
    fs.map_free_all(&mut t, &mut i).unwrap();
    for b in old.iter().flatten() {
        assert!(fs.free_extent(&mut t, *b, 1).is_err(), "block {b} is free");
    }
    // nothing is lost but what the tables themselves reserve
    let lost = free - fs.sb.free_blocks;
    assert!(lost <= 256, "{lost}");
}
