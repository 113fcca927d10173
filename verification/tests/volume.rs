//! What a volume promises, on concrete volumes: making and opening one,
//! allocation, directories, resizing, importing and looking it over.

use gofs::device::{DevOp, Device};
use gofs::error::FsError;
use gofs::extent::Mapping;
use gofs::fmt::{
    blk_addr, blk_split, AgHeader, DirEntry, FmtError, Inode, Superblock, Ts, CELL_FREE,
    CELL_FULL, CELL_REFINED, DT_DIR, DT_FILE, FMT_EMBED, FMT_EMPTY, FMT_EXTENT, FMT_TREE,
};
use gofs::fs::Gofs;
use gofs::fsck::{check, What};
use gofs::mkfs::{mkfs, mkfs_with, MkfsOpts};
use gofs::mount::{listing, read_window, Kind, MOUNT_ROOT};
use gofs::scan::count_states;

const MIB: u64 = 1 << 20;
const NOW: Ts = Ts { sec: 1_750_000_000, nsec: 7 };

fn opts(size: u64) -> MkfsOpts {
    MkfsOpts { size: Some(size), label: "vol".into(), ..Default::default() }
}

fn image(size: u64) -> Vec<u8> {
    let mut dev = Device::create(0);
    mkfs_with(&mut dev, &opts(size), *b"0123456789abcdef", NOW).unwrap();
    dev.data
}

fn volume(size: u64) -> Gofs {
    Gofs::open(Device::open(image(size), true)).unwrap()
}

fn made(o: &MkfsOpts) -> Result<(), FsError> {
    mkfs(&mut Device::create(0), o).map(|_| ())
}

// --- making a volume

#[test]
fn options_that_cannot_be_met() {
    assert_eq!(made(&MkfsOpts { blocksize: 3000, ..opts(32 * MIB) }), Err(FsError::MkfsBlocksize));
    assert_eq!(made(&MkfsOpts { blocksize: 1024, ..opts(32 * MIB) }), Err(FsError::MkfsBlocksize));
    assert_eq!(made(&MkfsOpts { inodesize: 100, ..opts(32 * MIB) }), Err(FsError::MkfsInodesize));
    assert_eq!(made(&MkfsOpts { inodesize: 128, ..opts(32 * MIB) }), Err(FsError::MkfsInodesize));
    let many = MkfsOpts { blocksize: 8192, inodesize: 256, ..opts(32 * MIB) };
    assert_eq!(made(&many), Err(FsError::MkfsSlots));
    assert_eq!(made(&opts(MIB)), Err(FsError::DeviceTooSmall(MIB)));
    let log = MkfsOpts { journal: Some(64 * MIB), ..opts(32 * MIB) };
    assert_eq!(made(&log), Err(FsError::NoRoomForJournal));
}

#[test]
fn made_volume_loads_and_is_clean() {
    let mut dev = Device::create(0);
    let s = mkfs_with(&mut dev, &opts(32 * MIB), [9; 16], NOW).unwrap();
    assert_eq!((s.size, s.blocks, s.ags), (32 * MIB, 8192, 1));
    assert!(matches!(dev.take_log().last(), Some(DevOp::Sync)));
    let fs = Gofs::load(Device::open(dev.data.clone(), false)).unwrap();
    assert_eq!(fs.sb.uuid, [9; 16]);
    assert_eq!(fs.sb.label(), "vol");
    assert_eq!(fs.sb.free_blocks, s.free_blocks);
    let root = fs.read_inode(s.root_ino).unwrap();
    assert!(root.is_dir() && !root.is_file());
    assert_eq!(root.mtime, NOW);
    assert!(fs.dir_entries(s.root_ino).unwrap().is_empty());
    let r = check(Device::open(dev.data, false)).unwrap();
    assert!(r.clean() && r.warnings.is_empty());
}

#[test]
fn volume_ids_are_random() {
    let mut ids = Vec::new();
    for _ in 0..2 {
        let mut dev = Device::create(0);
        mkfs(&mut dev, &opts(32 * MIB)).unwrap();
        ids.push(Superblock::parse(&dev.data).unwrap().uuid);
    }
    assert_ne!(ids[0], ids[1]);
    for id in ids {
        assert_eq!((id[6] >> 4, id[8] >> 6), (4, 2));
    }
}

#[test]
fn kernel_lies_in_one_piece_and_reads_back() {
    let kernel: Vec<u8> = (0..100_000u32).map(|i| (i * 7 % 251) as u8).collect();
    let mut dev = Device::create(0);
    let o = MkfsOpts { kernel: Some(kernel.clone()), ..opts(32 * MIB) };
    let s = mkfs_with(&mut dev, &o, [1; 16], NOW).unwrap();
    let at = s.kernel_offset as usize;
    assert_eq!(&dev.data[at..at + kernel.len()], &kernel[..]);
    let fs = Gofs::load(Device::open(dev.data.clone(), false)).unwrap();
    let ino = fs.dir_lookup(s.root_ino, "kernel.bin").unwrap().unwrap();
    assert_eq!(fs.read_file(ino).unwrap(), kernel);
    assert!(check(Device::open(dev.data, false)).unwrap().clean());
}

// --- opening

#[test]
fn feature_flags_are_heeded() {
    let img = image(32 * MIB);
    let mut sb = Superblock::parse(&img).unwrap();
    sb.ro_compat = 4;
    let mut a = img.clone();
    a[..512].copy_from_slice(&sb.to_bytes());
    assert!(Gofs::open(Device::open(a.clone(), false)).is_ok());
    assert_eq!(Gofs::open(Device::open(a, true)).err(), Some(FsError::RoCompat(4)));
    sb.incompat = 2;
    let mut b = img;
    b[..512].copy_from_slice(&sb.to_bytes());
    assert_eq!(Gofs::open(Device::open(b.clone(), false)).err(), Some(FsError::Incompat(2)));
    let r = check(Device::open(b, false)).unwrap();
    assert!(r.errors.iter().any(|f| f.what == What::Incompat(2)));
}

#[test]
fn backup_superblock_stands_in_and_heals() {
    let mut img = image(32 * MIB);
    img[..512].fill(0);
    assert!(Gofs::load(Device::open(img.clone(), false)).is_err());
    let fs = Gofs::open(Device::open(img.clone(), false)).unwrap();
    assert_eq!(fs.sb.uuid, *b"0123456789abcdef");
    let healed = Gofs::open(Device::open(img, true)).unwrap().dev.data;
    assert!(Gofs::load(Device::open(healed, false)).is_ok());
    let none = Device::open(vec![0u8; 4096], false);
    assert_eq!(Gofs::open(none).err(), Some(FsError::Super(FmtError::BadMagic)));
}

#[test]
fn one_map_copy_is_enough() {
    let mut img = image(32 * MIB);
    let sb = Superblock::parse(&img).unwrap();
    let at = sb.agmap_offset as usize;
    img[at..at + 64].fill(0xff);
    assert!(Gofs::load(Device::open(img.clone(), false)).is_ok());
    let second = at + 0x1_0000;
    img[second..second + 64].fill(0xff);
    assert_eq!(Gofs::load(Device::open(img, false)).err(), Some(FsError::NoAgMap));
}

// --- device

#[test]
fn device_refuses_what_lies_outside() {
    let mut d = Device::open(vec![1, 2, 3, 4], true);
    assert_eq!(d.read_vec(1, 2), Ok(vec![2, 3]));
    assert_eq!(d.read_vec(3, 2), Err(FsError::Io { offset: 3, len: 2 }));
    assert_eq!(d.pwrite(&[9], 4), Err(FsError::Io { offset: 4, len: 1 }));
    assert_eq!(d.pwrite(&[9, 8], 1), Ok(()));
    d.set_len(6);
    assert_eq!(d.data, [1, 9, 8, 4, 0, 0]);
    let log = d.take_log();
    assert_eq!(log.len(), 2);
    assert!(matches!(&log[0], DevOp::Write { offset: 1, data } if data[..] == [9, 8]));
    assert!(matches!(log[1], DevOp::SetLen(6)));
    let mut ro = Device::open(vec![0; 8], false);
    assert_eq!(ro.pwrite(&[1], 0), Err(FsError::ReadOnly));
}

// --- allocation

/// Free blocks as the superblock and as the header of group 0 count them.
fn free(fs: &Gofs, t: &gofs::journal::Txn) -> (u64, u32) {
    (fs.sb.free_blocks, fs.read_ag_header_txn(t, 0).unwrap().free_blocks)
}

#[test]
fn allocation_takes_free_blocks_and_freeing_gives_them_back() {
    let mut fs = volume(32 * MIB);
    let mut t = fs.txn();
    let a = fs.alloc_block(&mut t, 0).unwrap();
    let before = free(&fs, &t);
    let sum = fs.sb.free_blocks + fs.sb.rsvd_blocks + fs.sb.full_blocks;
    // single blocks, parts of a cell, whole cells
    let mut runs = vec![(a, 1u64)];
    for (n, granted) in [(1u64, 1u64), (16, 16), (20, 32), (300, 512)] {
        let f0 = free(&fs, &t).0;
        let b = fs.alloc_extent(&mut t, 0, n).unwrap();
        let gone = f0 - free(&fs, &t).0;
        // a new table arena may take a cell besides
        assert!(gone == granted || gone == granted + 256, "{} for {}", gone, n);
        for &(x, m) in &runs {
            assert!(b + granted <= x || x + m <= b, "overlap");
        }
        runs.push((b, granted));
    }
    assert_eq!(sum, fs.sb.free_blocks + fs.sb.rsvd_blocks + fs.sb.full_blocks);
    let arenas = fs.sb.rsvd_blocks;
    for &(b, n) in &runs[1..] {
        fs.free_extent(&mut t, b, n).unwrap();
    }
    assert_eq!(arenas, fs.sb.rsvd_blocks);
    let after = free(&fs, &t);
    assert!((before.0 - after.0) % 256 == 0 && (before.1 - after.1) % 256 == 0);
    // what is free cannot be freed, and nothing else was touched
    let (ag, local) = blk_split(runs[1].0);
    assert_eq!(fs.free_extent(&mut t, runs[1].0, 1), Err(FsError::NotAllocated { ag, local }));
    fs.free_extent(&mut t, a, 1).unwrap();
}

#[test]
fn misaligned_frees_are_refused() {
    let mut fs = volume(32 * MIB);
    let mut t = fs.txn();
    let cell = fs.alloc_extent(&mut t, 0, 256).unwrap();
    assert_eq!(fs.free_extent(&mut t, cell + 1, 1), Err(FsError::MisalignedCell));
    let part = fs.alloc_extent(&mut t, 0, 17).unwrap();
    assert_eq!(fs.free_extent(&mut t, part + 1, 1), Err(FsError::MisalignedSubcell));
    let (_, local) = blk_split(cell);
    fs.free_extent(&mut t, cell, 256).unwrap();
    let state = CELL_FREE;
    assert_eq!(
        fs.free_extent(&mut t, cell, 1),
        Err(FsError::CellState { ag: 0, cell: local as u64 / 256, state })
    );
    assert_eq!(fs.free_extent(&mut t, part + 32, 1), Err(FsError::SubcellState(CELL_FREE)));
}

#[test]
fn space_runs_out() {
    let mut fs = volume(32 * MIB);
    let mut t = fs.txn();
    assert_eq!(
        fs.alloc_extent(&mut t, 0, 100_000),
        Err(FsError::NoRoom { ag: 0, cells: 391 })
    );
    let mut taken = 0;
    while fs.alloc_extent(&mut t, 0, 256).is_ok() {
        taken += 1;
    }
    assert!(taken > 10);
    assert_eq!(fs.alloc_extent(&mut t, 0, 256), Err(FsError::NoRoom { ag: 0, cells: 1 }));
    // parts of a cell still come from the cell that holds the inode block
    let mut parts = 0;
    while fs.alloc_extent(&mut t, 0, 17).is_ok() {
        parts += 1;
    }
    assert!(parts > 0);
    assert_eq!(fs.alloc_extent(&mut t, 0, 17), Err(FsError::OutOfSpace(0)));
}

#[test]
fn refining_a_cell_leaves_its_blocks_free() {
    let mut fs = volume(32 * MIB);
    let mut t = fs.txn();
    let mut hdr = fs.read_ag_header_txn(&t, 0).unwrap();
    let c = (0..32).find(|&c| fs.rt_state(&t, &hdr, c) == Ok(CELL_FREE)).unwrap();
    let r = fs.refine_l0(&mut t, &mut hdr, c).unwrap();
    assert_eq!(fs.rt_state(&t, &hdr, c), Ok(CELL_REFINED));
    assert_eq!(fs.rt_ref(&t, &hdr, c), Ok(r));
    assert!(fs.rec_read(&t, 0, r).unwrap().iter().all(|&b| b == 0));
    fs.put_ag_header(&mut t, &mut hdr).unwrap();
    let b = fs.alloc_extent(&mut t, 0, 16).unwrap();
    assert_eq!(fs.granule_at(&t, b), Ok(1));
    let whole = fs.alloc_extent(&mut t, 0, 256).unwrap();
    assert_eq!(fs.granule_at(&t, whole), Ok(256));
    let h = fs.read_ag_header_txn(&t, 0).unwrap();
    assert_eq!(fs.rt_state(&t, &h, blk_split(whole).1 as u64 / 256), Ok(CELL_FULL));
}

// --- mapping

#[test]
fn ensured_runs_tile_the_range_and_keep_the_file() {
    let mut fs = volume(32 * MIB);
    let mut t = fs.txn();
    let mut i = Inode { mode: 0o100644, nlink: 1, format: FMT_EMPTY, ..Default::default() };
    let first = fs.map_ensure(&mut t, 0, &mut i, 5, 3).unwrap();
    assert_eq!(i.format, FMT_EXTENT);
    let at = |fs: &Gofs, t: &gofs::journal::Txn, i: &Inode, f: u64| match fs
        .map_lookup(t, i, f)
        .unwrap()
    {
        Mapping::Run { blk, .. } => Some(blk),
        Mapping::Hole(_) => None,
    };
    let kept: Vec<_> = (5..8).map(|f| at(&fs, &t, &i, f)).collect();
    assert_eq!(kept[0], Some(first[0].1));
    // the next range covers it, and a far one makes the extents many
    let runs = fs.map_ensure(&mut t, 0, &mut i, 0, 20).unwrap();
    let mut pos = 0;
    for &(f, blk, n, fresh) in &runs {
        assert_eq!(f, pos);
        assert_eq!(at(&fs, &t, &i, f), Some(blk));
        assert_eq!(fresh, !(5..8).contains(&f));
        pos += n;
    }
    assert_eq!(pos, 20);
    assert_eq!((5..8).map(|f| at(&fs, &t, &i, f)).collect::<Vec<_>>(), kept);
    for k in 1..9 {
        fs.map_ensure(&mut t, 0, &mut i, 1000 * k, 1).unwrap();
    }
    assert_eq!(i.format, FMT_TREE);
    assert_eq!((5..8).map(|f| at(&fs, &t, &i, f)).collect::<Vec<_>>(), kept);
    assert_eq!(at(&fs, &t, &i, 21), None);
    assert_eq!(
        fs.map_ensure(&mut t, 0, &mut i, u64::MAX, 1),
        Err(FsError::FileTooBig)
    );
    let mut odd = Inode { format: 77, ..i };
    assert_eq!(fs.map_lookup(&t, &odd, 0), Err(FsError::NoMapping(77)));
    assert_eq!(fs.map_free_all(&mut t, &mut odd), Err(FsError::CannotFree(77)));
    assert_eq!(fs.map_truncate(&mut t, &mut odd, 0), Err(FsError::CannotTruncate(77)));
}

// --- directories

fn entry(ino: u64, name: &str) -> DirEntry {
    DirEntry { ino, ftype: DT_FILE, name: name.into() }
}

#[test]
fn entries_are_found_until_they_are_removed() {
    let mut fs = volume(32 * MIB);
    let mut t = fs.txn();
    let root = fs.sb.root_ino;
    let mut d = Inode { mode: 0o040755, nlink: 1, format: FMT_EMPTY, ..Default::default() };
    assert_eq!(fs.dir_find(&t, &d, "a").unwrap().map(|e| e.ino), None);
    fs.dir_insert(&mut t, root, &mut d, &entry(7, "a")).unwrap();
    assert_eq!(d.format, FMT_EMBED);
    assert_eq!(fs.dir_insert(&mut t, root, &mut d, &entry(8, "a")), Err(FsError::Exists));
    let long = "x".repeat(256);
    assert_eq!(fs.dir_insert(&mut t, root, &mut d, &entry(8, &long)), Err(FsError::NameTooLong));
    let names: Vec<String> = (0..300).map(|k| format!("n{}", k * 7919 % 300)).collect();
    for (k, n) in names.iter().enumerate() {
        fs.dir_insert(&mut t, root, &mut d, &entry(100 + k as u64, n)).unwrap();
        assert_eq!(fs.dir_find(&t, &d, n).unwrap().map(|e| e.ino), Some(100 + k as u64));
    }
    assert_eq!(d.format, FMT_EXTENT);
    assert_eq!(fs.dir_find(&t, &d, "a").unwrap().map(|e| e.ino), Some(7));
    assert_eq!(fs.dir_insert(&mut t, root, &mut d, &entry(8, "a")), Err(FsError::Exists));
    assert_eq!(fs.dir_insert(&mut t, root, &mut d, &entry(8, &long)), Err(FsError::NameTooLong));
    // the listing is in order of name and holds what is found
    let list = fs.dir_list(&t, &d).unwrap();
    assert_eq!(list.len(), 301);
    assert_eq!(fs.dir_count(&t, &d), Ok(301));
    assert!(list.windows(2).all(|w| w[0].name < w[1].name));
    assert!(fs.dir_check(&t, &d).unwrap().is_empty());
    for (k, n) in names.iter().enumerate() {
        let e = fs.dir_remove(&mut t, &mut d, n).unwrap();
        assert_eq!(e.ino, 100 + k as u64);
        assert!(fs.dir_find(&t, &d, n).unwrap().is_none());
        assert_eq!(fs.dir_find(&t, &d, "a").unwrap().map(|e| e.ino), Some(7));
        assert_eq!(fs.dir_remove(&mut t, &mut d, n).err(), Some(FsError::NotFound));
    }
    fs.dir_remove(&mut t, &mut d, "a").unwrap();
    assert_eq!(d.format, FMT_EMPTY);
    let mut f = Inode { mode: 0o100644, ..d };
    assert_eq!(fs.dir_list(&t, &f).err(), Some(FsError::NotADirectory));
    f = Inode { format: 88, ..d };
    assert_eq!(fs.dir_list(&t, &f).err(), Some(FsError::DirFormat(88)));
}

// --- importing

#[test]
fn imported_files_read_back() {
    let mut fs = volume(32 * MIB);
    let small: Vec<u8> = (0..100).collect();
    let large: Vec<u8> = (0..2_000_000u32).map(|i| (i * 13 % 241) as u8).collect();
    let a = fs.import_at("small", &small, 0o100600, NOW).unwrap();
    let b = fs.import("large", &large, 0o100644).unwrap();
    assert_eq!(fs.read_file(a).unwrap(), small);
    assert_eq!(fs.read_file(b).unwrap(), large);
    let i = fs.read_inode(a).unwrap();
    assert_eq!((i.format, i.size, i.mode, i.mtime), (FMT_EMBED, 100, 0o100600, NOW));
    assert_eq!(fs.dir_lookup(fs.sb.root_ino, "large"), Ok(Some(b)));
    assert_eq!(fs.dir_lookup(fs.sb.root_ino, "other"), Ok(None));
    assert_eq!(fs.import("small", &small, 0o100644), Err(FsError::Exists));
    assert!(check(Device::open(fs.dev.data.clone(), false)).unwrap().clean());
    let mut ro = Gofs::open(Device::open(fs.dev.data, false)).unwrap();
    assert_eq!(ro.import("x", &small, 0o100644), Err(FsError::ReadOnly));
}

#[test]
fn imports_end_with_the_inode_block() {
    let mut fs = volume(32 * MIB);
    let mut n = 0;
    let last = loop {
        match fs.import(&format!("{}", n), b"x", 0o100644) {
            Ok(_) => n += 1,
            Err(e) => break e,
        }
    };
    // the root directory's payload fills up before the slots do
    assert!(n > 3);
    assert!(matches!(last, FsError::Encode(_) | FsError::NoInodeSlot));
}

// --- resizing

#[test]
fn resize_refuses_what_does_not_fit() {
    let mut fs = volume(32 * MIB);
    let end = 32 * MIB;
    assert_eq!(
        fs.grow(16 << 20),
        Err(FsError::NotPastEnd { size: 16 * MIB, end })
    );
    assert_eq!(fs.add_ag(end + 1, 8 * MIB), Err(FsError::Unaligned));
    assert_eq!(fs.add_ag(end, MIB), Err(FsError::AgTooSmall(256)));
    assert_eq!(fs.add_ag(0, 8 * MIB), Err(FsError::Overlap));
    assert_eq!(fs.retire(0), Err(FsError::RetireFirst));
    assert_eq!(fs.relocate(0, 1), Err(FsError::Unaligned));
    assert_eq!(fs.relocate(5, 0), Err(FsError::NoSuchAg(5)));
    assert_eq!(fs.relocate(0, end), Err(FsError::Immovable(0)));
    let ag = fs.grow(48 << 20).unwrap();
    assert_eq!(ag, 1);
    assert_eq!(fs.relocate(1, 40 * MIB), Err(FsError::PastEnd));
    assert_eq!(fs.relocate(1, 16 * MIB), Err(FsError::Overlap));
    assert_eq!(fs.shrink(16 << 20), Err(FsError::ShrinkFirst));
    assert_eq!(fs.find_gap(MIB, 48 * MIB), None);
    fs.retire(1).unwrap();
    assert!(fs.retire(1).is_err());
    assert_eq!(fs.relocate(1, 0), Err(FsError::NotPresent(1)));
    assert_eq!(fs.find_gap(MIB, 48 * MIB), Some(32 * MIB));
    fs.shrink(32 << 20).unwrap();
    assert_eq!(fs.dev.size, 32 * MIB);
    // the retired number is not given out again
    assert_eq!(fs.grow(48 << 20), Ok(2));
}

#[test]
fn moving_a_group_keeps_its_blocks() {
    let mut fs = volume(32 * MIB);
    let g1 = fs.grow(48 << 20).unwrap();
    let g2 = fs.grow(64 << 20).unwrap();
    let mut t = fs.txn();
    let b = fs.alloc_extent(&mut t, g2, 3).unwrap();
    fs.commit(t).unwrap();
    let data = vec![0x5a; 4096];
    fs.write_block(b + 1, &data).unwrap();
    let blocks = fs.read_ag_header(g2).unwrap().full_blocks;
    assert_eq!(fs.retire(g2), Err(FsError::StillAllocated { ag: g2, blocks }));
    assert!(matches!(fs.shrink(48 << 20), Err(FsError::NoGap { ag, .. }) if ag == g2));
    fs.retire(g1).unwrap();
    let hdr: AgHeader = fs.read_ag_header(g2).unwrap();
    fs.shrink(48 << 20).unwrap();
    assert_eq!(fs.dev.size, 48 * MIB);
    assert_eq!(fs.read_block(b + 1).unwrap(), data);
    assert_eq!(fs.read_ag_header(g2).unwrap(), hdr);
    let again = Gofs::open(Device::open(fs.dev.data, true)).unwrap();
    assert_eq!(again.read_block(b + 1).unwrap(), data);
}

// --- journal

#[test]
fn transactions_have_limits() {
    let mut fs = volume(32 * MIB);
    let bs = fs.sb.blocksize as usize;
    let most = (bs - 24) / 8;
    let limit = gofs::journal::max_targets(bs);
    assert!(limit <= most + 1);
    let mut t = fs.txn();
    for k in 0..limit as u64 + 1 {
        fs.txn_write(&mut t, blk_addr(0, 3000 + k as u32), vec![1; bs]);
    }
    assert_eq!(fs.commit(t), Err(FsError::TxnTooLarge(limit as u64 + 1)));
    let t = fs.txn();
    assert!(t.is_empty());
    fs.commit(t).unwrap();
    assert_eq!(fs.journal_pending(), Ok(0));
}

#[test]
fn committed_blocks_read_back_and_the_rest_is_kept() {
    let mut fs = volume(32 * MIB);
    let bs = fs.sb.blocksize as usize;
    let (a, b) = (blk_addr(0, 4000), blk_addr(0, 4001));
    let other = fs.read_block(b).unwrap();
    let mut t = fs.txn();
    fs.txn_write(&mut t, a, vec![3; bs]);
    assert_eq!(fs.txn_read(&t, a).unwrap(), vec![3; bs]);
    assert_ne!(fs.read_block(a).unwrap(), vec![3; bs]);
    fs.commit(t).unwrap();
    assert_eq!(fs.read_block(a).unwrap(), vec![3; bs]);
    assert_eq!(fs.read_block(b).unwrap(), other);
    // replaying what is there already changes nothing
    let data = fs.dev.data.clone();
    fs.replay().unwrap();
    assert_eq!(fs.read_block(a).unwrap(), vec![3; bs]);
    assert_eq!(fs.replay(), Ok(0));
    assert_eq!(fs.dev.data.len(), data.len());
}

// --- looking over

#[test]
fn scan_sees_every_inode() {
    let mut fs = volume(32 * MIB);
    let a = fs.import("a", b"hello", 0o100644).unwrap();
    let seen = fs.scan();
    let inos: Vec<u64> = seen.iter().map(|s| s.ino).collect();
    assert_eq!(inos, vec![fs.sb.root_ino, a]);
    assert!(seen.iter().all(|s| s.inode.is_ok()));
    // a damaged one is seen, with what is wrong
    let at = fs.inode_phys(a).unwrap() as usize;
    fs.dev.data[at + 20] ^= 1;
    let seen = fs.scan();
    assert_eq!(seen[1].ino, a);
    assert_eq!(seen[1].inode.err(), Some(FmtError::BadChecksum));
}

#[test]
fn cell_states_are_counted() {
    // free, reserved, full, refined: 0b11_10_01_00, and one cell more
    assert_eq!(count_states(&[0b1110_0100, 0b10], 5), [1, 1, 2, 1]);
    assert_eq!(count_states(&[], 0), [0, 0, 0, 0]);
    let fs = volume(32 * MIB);
    let hdr = fs.read_ag_header(0).unwrap();
    let table = fs.read_root_table(&hdr).unwrap();
    let n = count_states(&table, 32);
    assert_eq!(n.iter().sum::<u64>(), 32);
    assert_eq!(n[3], 1);
}

#[test]
fn damage_is_found() {
    let img = image(32 * MIB);
    let mut a = img.clone();
    a[4096 + 16] ^= 0xff;
    let r = check(Device::open(a, false)).unwrap();
    assert!(r.errors.iter().any(|f| matches!(f.what, What::BadHeader { ag: 0, .. })));
    assert!(!r.clean());
    // a free counter that is off
    let mut fs = Gofs::open(Device::open(img, true)).unwrap();
    let mut hdr = fs.read_ag_header(0).unwrap();
    hdr.free_blocks -= 1;
    fs.write_ag_header(&hdr).unwrap();
    let r = check(Device::open(fs.dev.data.clone(), false)).unwrap();
    assert!(r.errors.iter().any(|f| matches!(f.what, What::FreeCount { ag: 0, .. })));
    // a root that is no directory
    let root = fs.sb.root_ino;
    let mut i = fs.read_inode(root).unwrap();
    i.mode = 0o100644;
    fs.write_inode(root, &i).unwrap();
    let r = check(Device::open(fs.dev.data, false)).unwrap();
    assert!(r.errors.iter().any(|f| f.what == What::RootNotDir));
}

#[test]
fn host_view_of_inodes() {
    let fs = volume(32 * MIB);
    assert_eq!(fs.real_ino(MOUNT_ROOT), fs.sb.root_ino);
    assert_eq!(fs.real_ino(77), 77);
    let i = Inode {
        mode: 0o040755,
        size: 1025,
        nlink: 3,
        mtime: Ts { sec: -5, nsec: 1 },
        ctime: NOW,
        ..Default::default()
    };
    let a = fs.attr(9, &i);
    assert_eq!((a.ino, a.size, a.blocks, a.nlink, a.perm), (9, 1025, 3, 3, 0o755));
    assert_eq!(a.kind, Kind::Directory);
    assert_eq!(a.mtime, Ts { sec: 0, nsec: 0 });
    assert_eq!(a.ctime, NOW);
    assert_eq!(fs.attr(9, &Inode { mode: 0o120777, ..i }).kind, Kind::Symlink);
    assert_eq!(fs.attr(9, &Inode { mode: 0o100644, ..i }).kind, Kind::File);
    assert_eq!(read_window(10, 3, 4), (3, 7));
    assert_eq!(read_window(10, 8, 4), (8, 10));
    assert_eq!(read_window(10, 11, 4), (10, 10));
    assert_eq!(read_window(10, -1, 4), (10, 10));
    let l = listing(9, &vec![DirEntry { ino: 4, ftype: DT_DIR, name: "d".into() }, entry(5, "f")]);
    let shown: Vec<_> = l.iter().map(|s| (s.ino, s.kind, s.name.as_str())).collect();
    assert_eq!(
        shown,
        vec![
            (9, Kind::Directory, "."),
            (MOUNT_ROOT, Kind::Directory, ".."),
            (4, Kind::Directory, "d"),
            (5, Kind::File, "f"),
        ]
    );
}
