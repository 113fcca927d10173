//! End to end: making volumes, file data across all formats, directories
//! through hash conversion and splits, space reclamation, journal replay,
//! crash recovery and resize. The check must come back clean after every
//! phase.

use gofs::device::{DevOp, Device};
use gofs::error::FsError;
use gofs::extent::Mapping;
use gofs::fmt::{
    blk_addr, blk_split, DirEntry, Inode, CELL_BLOCKS, DT_DIR, DT_FILE, FMT_EMPTY, FMT_EXTENT,
    FMT_TREE,
};
use gofs::fs::Gofs;
use gofs::fsck::check;
use gofs::journal::Txn;
use gofs::mkfs::{mkfs, MkfsOpts};

fn fresh(mb: u64) -> Vec<u8> {
    let mut dev = Device::create(0);
    let opts = MkfsOpts { size: Some(mb << 20), label: "test".into(), ..Default::default() };
    mkfs(&mut dev, &opts).unwrap();
    dev.data
}

fn writable(img: Vec<u8>) -> Gofs {
    Gofs::open(Device::open(img, true)).unwrap()
}

fn assert_clean(img: &[u8], phase: &str) {
    let r = check(Device::open(img.to_vec(), false)).unwrap();
    assert!(r.errors.is_empty(), "errors after {}: {:#?}", phase, r.errors);
    assert!(r.warnings.is_empty(), "warnings after {}: {:#?}", phase, r.warnings);
    assert!(r.clean());
}

fn pattern(len: usize, seed: u8) -> Vec<u8> {
    (0..len).map(|i| (i as u64 * 31 + seed as u64) as u8).collect()
}

// --- operations put together from the library's parts

fn spot(fs: &Gofs, ino: u64) -> (u64, usize) {
    let (ag, slot) = blk_split(ino);
    let off = slot as usize * fs.sb.inodesize as usize;
    let bs = fs.sb.blocksize as usize;
    (blk_addr(ag, (off / bs) as u32), off % bs)
}

fn get(fs: &Gofs, t: &Txn, ino: u64) -> Inode {
    let (blk, off) = spot(fs, ino);
    Inode::parse(&fs.txn_read(t, blk).unwrap()[off..]).unwrap()
}

fn put(fs: &Gofs, t: &mut Txn, ino: u64, i: &Inode) {
    let (blk, off) = spot(fs, ino);
    let mut b = fs.txn_read(t, blk).unwrap();
    b[off..off + 256].copy_from_slice(&i.to_bytes());
    fs.txn_write(t, blk, b);
}

fn make(fs: &mut Gofs, dir: u64, name: &str, mode: u16) -> Result<u64, FsError> {
    let mut t = fs.txn();
    let ino = fs.alloc_inode(&mut t, 0)?;
    let i = Inode { mode, nlink: 1, ..Default::default() };
    put(fs, &mut t, ino, &i);
    let mut d = get(fs, &t, dir);
    let ftype = if i.is_dir() { DT_DIR } else { DT_FILE };
    fs.dir_insert(&mut t, dir, &mut d, &DirEntry { ino, ftype, name: name.into() })?;
    put(fs, &mut t, dir, &d);
    fs.commit(t)?;
    Ok(ino)
}

fn find(fs: &Gofs, dir: u64, name: &str) -> Option<u64> {
    let t = fs.txn();
    let d = get(fs, &t, dir);
    fs.dir_find(&t, &d, name).unwrap().map(|e| e.ino)
}

fn write(fs: &mut Gofs, ino: u64, off: u64, data: &[u8]) {
    let bs = fs.sb.blocksize as u64;
    let (first, last) = (off / bs, (off + data.len() as u64 - 1) / bs);
    let mut t = fs.txn();
    let mut i = get(fs, &t, ino);
    let runs = fs.map_ensure(&mut t, 0, &mut i, first, last - first + 1).unwrap();
    for (fb, blk, n, fresh) in runs {
        let (ag, local) = blk_split(blk);
        for k in 0..n {
            let at = blk_addr(ag, local + k as u32);
            let mut b =
                if fresh { vec![0u8; bs as usize] } else { fs.read_block(at).unwrap() };
            for (j, x) in b.iter_mut().enumerate() {
                let pos = (fb + k) * bs + j as u64;
                if pos >= off && pos < off + data.len() as u64 {
                    *x = data[(pos - off) as usize];
                }
            }
            fs.write_block(at, &b).unwrap();
        }
    }
    i.size = i.size.max(off + data.len() as u64);
    put(fs, &mut t, ino, &i);
    fs.commit(t).unwrap();
}

fn read(fs: &Gofs, ino: u64, off: u64, len: u64) -> Vec<u8> {
    let bs = fs.sb.blocksize as u64;
    let t = fs.txn();
    let i = get(fs, &t, ino);
    let mut out = Vec::new();
    let end = i.size.min(off + len);
    let mut pos = off;
    while pos < end {
        let fb = pos / bs;
        let stop = end.min((fb + 1) * bs);
        match fs.map_lookup(&t, &i, fb).unwrap() {
            Mapping::Run { blk, .. } => {
                let b = fs.read_block(blk).unwrap();
                out.extend_from_slice(&b[(pos - fb * bs) as usize..(stop - fb * bs) as usize]);
            }
            Mapping::Hole(_) => out.resize(out.len() + (stop - pos) as usize, 0),
        }
        pos = stop;
    }
    out
}

fn truncate(fs: &mut Gofs, ino: u64, size: u64) {
    let bs = fs.sb.blocksize as u64;
    let mut t = fs.txn();
    let mut i = get(fs, &t, ino);
    if size == 0 {
        fs.map_free_all(&mut t, &mut i).unwrap();
    } else if size < i.size {
        fs.map_truncate(&mut t, &mut i, (size + bs - 1) / bs).unwrap();
        // zero what is kept behind the end
        for fb in size / bs..(i.size + bs - 1) / bs {
            if let Mapping::Run { blk, .. } = fs.map_lookup(&t, &i, fb).unwrap() {
                let mut b = fs.read_block(blk).unwrap();
                b[if fb == size / bs { (size % bs) as usize } else { 0 }..].fill(0);
                fs.write_block(blk, &b).unwrap();
            }
        }
    }
    i.size = size;
    put(fs, &mut t, ino, &i);
    fs.commit(t).unwrap();
}

fn remove(fs: &mut Gofs, dir: u64, name: &str) {
    let mut t = fs.txn();
    let mut d = get(fs, &t, dir);
    let e = fs.dir_remove(&mut t, &mut d, name).unwrap();
    put(fs, &mut t, dir, &d);
    let mut i = get(fs, &t, e.ino);
    if i.format == FMT_EXTENT || i.format == FMT_TREE {
        fs.map_free_all(&mut t, &mut i).unwrap();
    }
    fs.free_inode(&mut t, e.ino).unwrap();
    fs.commit(t).unwrap();
}

// --- tests

#[test]
fn files_all_formats() {
    let img = fresh(64);
    assert_clean(&img, "mkfs");

    let small = pattern(100, 1); // EMBED
    let medium = pattern(200_000, 2); // EXTENT
    let large = pattern(5 << 20, 3); // spans multiple cells
    let mut fs = writable(img);
    fs.import("small", &small, 0o644).unwrap();
    fs.import("medium", &medium, 0o644).unwrap();
    fs.import("large", &large, 0o644).unwrap();
    assert!(fs.import("small", &small, 0o644).is_err(), "duplicate must fail");
    let img = fs.dev.data;
    assert_clean(&img, "imports");
    let fs = Gofs::open(Device::open(img, false)).unwrap();
    for (name, data) in [("small", &small), ("medium", &medium), ("large", &large)] {
        let ino = fs.dir_lookup(fs.sb.root_ino, name).unwrap().unwrap();
        assert_eq!(fs.read_file(ino).unwrap(), **data, "{} roundtrip", name);
    }
}

#[test]
fn sparse_and_tree() {
    let chunk = pattern(4096, 7);
    let offsets: Vec<u64> = (0..10).map(|i| i * (1 << 20) + 12345).collect();
    let mut fs = writable(fresh(64));
    let root = fs.sb.root_ino;
    let ino = make(&mut fs, root, "sparse", 0o100644).unwrap();
    // scattered single-block writes force > 6 extents -> TREE
    for off in &offsets {
        write(&mut fs, ino, *off, &chunk);
    }
    let inode = fs.read_inode(ino).unwrap();
    assert_eq!(inode.format, FMT_TREE, "expected TREE format");
    assert_eq!(inode.size, offsets.last().unwrap() + 4096);
    let img = fs.dev.data;
    assert_clean(&img, "sparse writes");

    let fs = Gofs::open(Device::open(img, false)).unwrap();
    let ino = find(&fs, fs.sb.root_ino, "sparse").unwrap();
    for off in &offsets {
        assert_eq!(read(&fs, ino, *off, 4096), chunk, "chunk at {}", off);
    }
    // holes read zero
    let hole = read(&fs, ino, 4096 + 12345, 4096);
    assert!(hole.iter().all(|&b| b == 0), "hole must read zeros");
    let all = fs.read_file(ino).unwrap();
    assert_eq!(all.len() as u64, offsets.last().unwrap() + 4096);
    for off in &offsets {
        assert_eq!(all[*off as usize..*off as usize + 4096], chunk);
    }
    let set: usize = all.iter().filter(|&&b| b != 0).count();
    assert_eq!(set, 10 * chunk.iter().filter(|&&b| b != 0).count());
}

#[test]
fn import_adds_to_an_embedded_root_only() {
    let mut fs = writable(fresh(64));
    let root = fs.sb.root_ino;
    fs.import("first", b"1", 0o644).unwrap();
    for i in 0..40 {
        make(&mut fs, root, &format!("name-{i:02}"), 0o100644).unwrap();
    }
    let format = fs.read_inode(root).unwrap().format;
    assert!(matches!(format, FMT_EXTENT | FMT_TREE));
    assert_eq!(fs.dir_entries(root).unwrap().len(), 41);
    assert_eq!(fs.dir_lookup(root, "name-07"), Ok(find(&fs, root, "name-07")));
    assert_eq!(fs.dir_lookup(root, "other"), Ok(None));
    let ino = fs.dir_lookup(root, "first").unwrap().unwrap();
    assert_eq!(fs.read_file(ino).unwrap(), b"1");
    assert_eq!(fs.import("name-07", b"x", 0o644), Err(FsError::Exists));
    assert_eq!(fs.import("last", b"x", 0o644), Err(FsError::DirFormat(format)));
    assert_clean(&fs.dev.data, "refused import");
}

#[test]
fn directory_hashing() {
    let n = 500;
    let mut fs = writable(fresh(64));
    let root = fs.sb.root_ino;
    let docs = make(&mut fs, root, "docs", 0o040755).unwrap();
    for i in 0..n {
        let data = pattern(64 + i, (i % 251) as u8);
        let ino = make(&mut fs, docs, &format!("file-{i:04}.txt"), 0o100644).unwrap();
        write(&mut fs, ino, 0, &data);
        fs.dev.take_log();
    }
    assert_clean(&fs.dev.data, "500 creates");
    {
        let fs = Gofs::open(Device::open(fs.dev.data.clone(), false)).unwrap();
        let docs = find(&fs, fs.sb.root_ino, "docs").unwrap();
        let inode = fs.read_inode(docs).unwrap();
        assert!(
            matches!(inode.format, FMT_EXTENT | FMT_TREE),
            "directory should have converted to hashed (format {})",
            inode.format
        );
        let t = fs.txn();
        let list = fs.dir_entries(docs).unwrap();
        assert_eq!(list.len(), n);
        assert_eq!(fs.dir_count(&t, &inode).unwrap(), n);
        for (i, e) in list.iter().enumerate() {
            assert_eq!(e.name, format!("file-{i:04}.txt"), "listing in order of name");
        }
        assert!(fs.dir_check(&t, &inode).unwrap().is_empty());
        for i in (0..n).step_by(37) {
            let name = format!("file-{i:04}.txt");
            let ino = find(&fs, docs, &name).unwrap();
            assert_eq!(fs.dir_lookup(docs, &name), Ok(Some(ino)));
            assert_eq!(fs.read_file(ino).unwrap(), pattern(64 + i, (i % 251) as u8));
        }
    }
    // remove everything: the directory must collapse and space must return
    for i in 0..n {
        remove(&mut fs, docs, &format!("file-{i:04}.txt"));
        fs.dev.take_log();
    }
    let inode = fs.read_inode(docs).unwrap();
    assert_eq!(fs.dir_entries(docs).unwrap().len(), 0);
    assert_eq!(inode.format, FMT_EMPTY, "emptied dir should collapse");
    remove(&mut fs, root, "docs");
    assert_clean(&fs.dev.data, "remove all");
}

#[test]
fn truncate_and_overwrite() {
    let mut fs = writable(fresh(64));
    let data = pattern(300_000, 5);
    let root = fs.sb.root_ino;
    let ino = fs.import("f", &data, 0o644).unwrap();
    assert_eq!(find(&fs, root, "f"), Some(ino));
    // shrink, check tail is gone and zeros come back on regrow
    truncate(&mut fs, ino, 100_000);
    assert_eq!(fs.read_file(ino).unwrap(), data[..100_000]);
    truncate(&mut fs, ino, 200_000);
    let back = fs.read_file(ino).unwrap();
    assert_eq!(back.len(), 200_000);
    assert_eq!(&back[..100_000], &data[..100_000]);
    assert!(back[100_000..].iter().all(|&b| b == 0), "regrown region must be zeros");
    // overwrite in the middle
    let patch = pattern(5000, 6);
    write(&mut fs, ino, 50_000, &patch);
    let back = fs.read_file(ino).unwrap();
    assert_eq!(&back[50_000..55_000], &patch[..]);
    assert_eq!(&back[..50_000], &data[..50_000]);
    // truncate to zero frees everything
    truncate(&mut fs, ino, 0);
    assert_eq!(fs.read_inode(ino).unwrap().format, FMT_EMPTY);
    assert_clean(&fs.dev.data, "truncate ops");
}

#[test]
fn space_reclamation() {
    let mut fs = writable(fresh(64));
    let free0 = fs.sb.free_blocks;
    let root = fs.sb.root_ino;
    let tmp = make(&mut fs, root, "tmp", 0o040755).unwrap();
    for i in 0..50 {
        let ino = make(&mut fs, tmp, &format!("f{i}"), 0o100644).unwrap();
        write(&mut fs, ino, 0, &pattern(100_000 + i, i as u8));
    }
    for i in 0..50 {
        remove(&mut fs, tmp, &format!("f{i}"));
    }
    remove(&mut fs, root, "tmp");
    assert_clean(&fs.dev.data, "create+delete cycle");
    // everything except possible table-arena reservation must be back
    let kept = free0 - fs.sb.free_blocks;
    assert!(kept <= CELL_BLOCKS as u64, "leaked {} blocks (more than one arena cell)", kept);
}

#[test]
fn journal_replay() {
    let mut fs = writable(fresh(64));
    let (head, seq) = (fs.sb.journal_head, fs.sb.journal_seq);
    let root = fs.sb.root_ino;
    let ino = make(&mut fs, root, "file", 0o100644).unwrap();
    write(&mut fs, ino, 0, &pattern(100, 1));
    // simulate a crash between journal write and checkpoint: rewind the
    // superblock journal pointers so the committed txns look unapplied
    fs.sb.journal_head = head;
    fs.sb.journal_seq = seq;
    fs.write_superblock().unwrap();
    assert!(fs.journal_pending().unwrap() > 0, "txns should look pending");
    // writable open must replay (idempotently)
    let fs = writable(fs.dev.data);
    assert_eq!(fs.journal_pending().unwrap(), 0, "replay must clear the journal");
    let ino = find(&fs, fs.sb.root_ino, "file").unwrap();
    assert_eq!(fs.read_file(ino).unwrap(), pattern(100, 1));
    assert_clean(&fs.dev.data, "journal replay");
}

#[test]
fn resize_grow_relocate_shrink() {
    let mut fs = writable(fresh(64));
    let ag1 = fs.grow(96 << 20).unwrap();
    assert_eq!(ag1, 1);
    let ag2 = fs.grow(128 << 20).unwrap();
    assert_eq!(ag2, 2);
    assert_clean(&fs.dev.data, "grow x2");

    let mut fs = writable(fs.dev.data);
    // retire empty AG 1, leaving a hole at 64..96 MiB
    fs.retire(1).unwrap();
    // move AG 2 wholesale into the hole; addresses must stay valid
    fs.relocate(2, 64 << 20).unwrap();
    assert_eq!(fs.map.entries[2].segs[0].dev_offset, 64 << 20);
    // and shrink the device back
    fs.shrink(96 << 20).unwrap();
    assert_clean(&fs.dev.data, "retire+relocate+shrink");

    let fs = Gofs::open(Device::open(fs.dev.data, false)).unwrap();
    assert_eq!(fs.dev.size, 96 << 20);
    assert_eq!(fs.sb.next_ag, 3, "AG ids are never reused");
}

#[test]
fn corruption_detected() {
    let mut img = fresh(32);
    img[100] ^= 0xff;
    assert!(
        check(Device::open(img, false)).is_err(),
        "corrupt superblock must not parse"
    );
}

// --- crash recovery: a crash state is all writes from finished epochs, plus
// an arbitrary subset of the crash epoch (nothing orders writes between two
// barriers), with or without one in-flight write torn. A writable open must
// succeed for each, the check must report no errors, and the completed
// operations must be an exact prefix of the workload.

struct Rng(u64);

impl Rng {
    fn next(&mut self) -> u64 {
        self.0 = self.0.wrapping_mul(6364136223846793005).wrapping_add(1442695040888963407);
        self.0 >> 11
    }
    fn coin(&mut self) -> bool {
        self.next() & 1 == 1
    }
    fn below(&mut self, n: u64) -> u64 {
        self.next() % n
    }
}

const OPS: usize = 25;

/// Run the workload once: the image before it, and its writes by epoch.
fn record_workload() -> (Vec<u8>, Vec<(u32, u64, Vec<u8>)>) {
    let mut dev = Device::create(0);
    mkfs(
        &mut dev,
        &MkfsOpts {
            size: Some(16 << 20),
            journal: Some(2 << 20),
            label: "crash".into(),
            ..Default::default()
        },
    )
    .unwrap();
    let base = dev.data.clone();
    let mut fs = writable(dev.data);
    fs.dev.take_log();
    let root = fs.sb.root_ino;
    for i in 0..OPS {
        // one transaction per op: a strict prefix is the invariant
        make(&mut fs, root, &format!("seq-{i:03}"), 0o040755).unwrap();
    }
    let mut log = Vec::new();
    let mut epoch = 0;
    for op in fs.dev.take_log() {
        match op {
            DevOp::Write { offset, data } => log.push((epoch, offset, data)),
            DevOp::Sync => epoch += 1,
            DevOp::SetLen(_) => {}
        }
    }
    (base, log)
}

fn apply(state: &mut [u8], off: u64, data: &[u8]) {
    state[off as usize..off as usize + data.len()].copy_from_slice(data);
}

/// Recover one crash state, check it, and check the prefix property.
fn verify_state(state: Vec<u8>, what: &str) {
    let fs = Gofs::open(Device::open(state, true)).unwrap_or_else(|e| panic!("{what}: open: {e:?}"));
    let mut seqs: Vec<usize> = fs
        .dir_entries(fs.sb.root_ino)
        .unwrap()
        .iter()
        .filter_map(|e| e.name.strip_prefix("seq-").and_then(|s| s.parse().ok()))
        .collect();
    seqs.sort_unstable();
    for (k, s) in seqs.iter().enumerate() {
        assert_eq!(*s, k, "{}: completed ops are not a prefix: {:?}", what, seqs);
    }
    let r = check(Device::open(fs.dev.data, false)).unwrap_or_else(|e| panic!("{what}: check: {e:?}"));
    assert!(r.errors.is_empty(), "{}: errors: {:#?}", what, r.errors);
}

#[test]
fn crash_recovery() {
    let (base, log) = record_workload();
    let max_epoch = log.last().map(|w| w.0).unwrap_or(0);
    assert!(max_epoch >= 2 * OPS as u32 - 1, "expected two epochs per op");
    let mut rng = Rng(0x5f5);
    for crash_epoch in 0..=max_epoch + 1 {
        // variant 0: clean epoch boundary. 1-2: random subset of the crash
        // epoch. 3: subset plus one torn (garbled) in-flight write.
        for variant in 0..4 {
            let mut state = base.clone();
            let mut inflight: Vec<(u64, usize)> = Vec::new();
            for (epoch, off, data) in &log {
                if *epoch < crash_epoch {
                    apply(&mut state, *off, data);
                } else if *epoch == crash_epoch && variant > 0 && rng.coin() {
                    apply(&mut state, *off, data);
                    inflight.push((*off, data.len()));
                }
            }
            if variant == 3 {
                if let Some(&(off, len)) = inflight.last() {
                    // tear it: persisted garbage instead of the payload
                    let garbage: Vec<u8> =
                        (0..len).map(|i| (rng.next() as u8) ^ i as u8).collect();
                    apply(&mut state, off, &garbage);
                }
            }
            verify_state(state, &format!("epoch {crash_epoch} variant {variant}"));
        }
    }
}

/// A transaction whose log is torn must be ignored wholesale on replay.
#[test]
fn torn_journal_commit() {
    let (base, log) = record_workload();
    let mut rng = Rng(42);
    // crash right after each op's journal epoch, tearing one of that
    // epoch's writes (journal descriptor, data, or commit block)
    let max_epoch = log.last().map(|w| w.0).unwrap_or(0);
    for crash_epoch in (0..=max_epoch).step_by(3) {
        let epoch_writes: Vec<&(u32, u64, Vec<u8>)> =
            log.iter().filter(|w| w.0 == crash_epoch).collect();
        if epoch_writes.is_empty() {
            continue;
        }
        let mut state = base.clone();
        for (epoch, off, data) in &log {
            if *epoch <= crash_epoch {
                apply(&mut state, *off, data);
            }
        }
        // tear a random write of the crash epoch
        let victim = epoch_writes[rng.below(epoch_writes.len() as u64) as usize];
        let garbage: Vec<u8> = (0..victim.2.len()).map(|_| rng.next() as u8).collect();
        apply(&mut state, victim.1, &garbage);
        verify_state(state, &format!("torn epoch {crash_epoch}"));
    }
}
