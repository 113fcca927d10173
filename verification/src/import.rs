//! Offline access without the journal: whole-cell allocation, listings of
//! directories, whole-file reads, and import of a file into the root
//! directory.

use crate::agmap::Group;
use crate::dirent::{dir_append, dir_parse, DirEntry, Dirent};
use crate::error::FsError;
use crate::dir::same_str;
use crate::fmt::{
    blk_addr, blk_split, cell_get, div_up, ino_addr, put_bytes, sub_vec, zero_vec, CELL_BLOCKS,
    CELL_FREE, CELL_FULL, DT_FILE, FMT_EMBED, FMT_EMPTY, FMT_EXTENT, FMT_TREE, INODE_PAYLOAD,
    INODE_SIZE,
};
use crate::fs::Gofs;
use crate::header::{rt_geometry, rt_table_blocks, AgHeader};
use crate::inode::{extents_store, Extent, Inode, Ts};
use crate::mapping::{Mapping, Mp};
use crate::resize::Img;
use crate::superblock::Superblock;
use crate::vol::Vol;
use vstd::prelude::*;

use crate::device;
use crate::dir;
use crate::dirent;
use crate::fmt;
use crate::fs;
use crate::header;
use crate::inode;
use crate::mapping;
use crate::mkfs;
use crate::resize;
use crate::vol;

verus! {

// --- runs of blocks -----------------------------------------------------------

/// The address of block `local + i` of a group; an error past the last one.
pub open spec fn run_addr(ag: u32, local: u32, i: int) -> Result<u64, FsError> {
    if local + i <= u32::MAX {
        Ok(fmt::addr_of(ag, (local + i) as u32))
    } else {
        Err(FsError::Corrupt)
    }
}

/// The blocks from `i` to `n` of a run, behind what was read before.
pub open spec fn run_read(v: Vol, ag: u32, local: u32, done: Seq<u8>, i: int, n: int) -> Result<
    Seq<u8>,
    FsError,
>
    decreases n - i,
{
    if i >= n {
        Ok(done)
    } else {
        match run_addr(ag, local, i) {
            Err(e) => Err(e),
            Ok(a) => match vol::rd0(v, a) {
                Err(e) => Err(e),
                Ok(b) => run_read(v, ag, local, done + b, i + 1, n),
            },
        }
    }
}

/// Block `i` of `data`, the last one zero-padded.
pub open spec fn chunk(data: Seq<u8>, bs: int, i: int) -> Seq<u8> {
    Seq::new(bs as nat, |k: int| if i * bs + k < data.len() { data[i * bs + k] } else { 0u8 })
}

/// The physical offset of block `local + i` of a group.
pub open spec fn run_place(gs: Seq<Group>, bs: u32, ag: u32, local: u32, i: int) -> Result<
    u64,
    FsError,
> {
    match run_addr(ag, local, i) {
        Err(e) => Err(e),
        Ok(a) => vol::place(gs, bs, a),
    }
}

/// Storing `data` in the blocks from `local` on.
pub open spec fn run_writes(gs: Seq<Group>, bs: u32, ag: u32, local: u32, data: Seq<u8>) -> Seq<
    (Result<u64, FsError>, Seq<u8>),
> {
    Seq::new(
        fmt::ceil_div(data.len() as int, bs as int) as nat,
        |i: int| (run_place(gs, bs, ag, local, i), chunk(data, bs as int, i)),
    )
}

// --- whole cells --------------------------------------------------------------

/// The root table of a group.
pub open spec fn root_table_of(v: Vol, hdr: AgHeader) -> Result<Seq<u8>, FsError> {
    run_read(
        v,
        hdr.ag_num,
        hdr.alloc_root,
        Seq::empty(),
        0,
        header::table_blocks(hdr.length, v.bs),
    )
}

/// Cells `s` to `s + k` are free.
pub open spec fn free_run(table: Seq<u8>, s: int, k: int) -> bool {
    forall|c: int| s <= c < s + k ==> fmt::cell_at(table, c) == CELL_FREE
}

/// `s` starts the first run of `k` free cells among `cells`.
pub open spec fn is_first_run(table: Seq<u8>, cells: int, k: int, s: int) -> bool {
    &&& 0 <= s
    &&& s + k <= cells
    &&& free_run(table, s, k)
    &&& forall|r: int| 0 <= r < s ==> !(#[trigger] free_run(table, r, k))
}

/// Where the first run of `k` free cells starts; none for no cells at all.
pub open spec fn first_free_run(table: Seq<u8>, cells: int, k: int) -> Option<int> {
    if k > 0 && exists|s: int| is_first_run(table, cells, k, s) {
        Some(choose|s: int| is_first_run(table, cells, k, s))
    } else {
        None
    }
}

/// Allocating `count` whole cells in a row.
#[verifier::opaque]
pub open spec fn cells_allocated(x: Img, ag: u32, count: int) -> (Img, Result<u64, FsError>) {
    let bs = x.sb.blocksize;
    let v = Vol { bytes: x.d.bytes, groups: x.m.entries, bs };
    match fs::header_of(v, Map::empty(), ag) {
        Err(e) => (x, Err(e)),
        Ok(h) => match root_table_of(v, h) {
            Err(e) => (x, Err(e)),
            Ok(t) => match first_free_run(t, header::cell_count(h.length), count) {
                None => (x, Err(FsError::NoRoom { ag, cells: count as u64 })),
                Some(s) => {
                    let n = count * 256;
                    if h.free_blocks < n || h.full_blocks + n > u32::MAX || h.gen == u64::MAX
                        || x.sb.free_blocks < n || x.sb.full_blocks + n > u64::MAX {
                        (x, Err(FsError::Corrupt))
                    } else {
                        cells_stored(x, h, resize::cells_filled(t, s, s + count, CELL_FULL), ag, s, n)
                    }
                },
            },
        },
    }
}

/// Storing a table with `n` more blocks in use, from cell `s` on, and the
/// counters.
pub open spec fn cells_stored(x: Img, h: AgHeader, t: Seq<u8>, ag: u32, s: int, n: int) -> (
    Img,
    Result<u64, FsError>,
) {
    let bs = x.sb.blocksize;
    let gs = x.m.entries;
    let h1 = AgHeader {
        free_blocks: (h.free_blocks - n) as u32,
        full_blocks: (h.full_blocks + n) as u32,
        gen: (h.gen + 1) as u64,
        ..h
    };
    let (d1, r1) = device::dev_writes(x.d, run_writes(gs, bs, h.ag_num, h.alloc_root, t));
    if r1 is Err {
        (Img { d: d1, ..x }, Err(r1->Err_0))
    } else {
        let (d2, r2) = device::dev_writes(
            d1,
            seq![
                (
                    vol::place(gs, bs, fmt::addr_of(h.ag_num, fs::header_local(h.ag_num))),
                    fs::header_block(h1, bs),
                ),
            ],
        );
        if r2 is Err {
            (Img { d: d2, ..x }, Err(r2->Err_0))
        } else {
            let (d3, sb3, r3) = fs::sb_write(
                d2,
                Superblock {
                    free_blocks: (x.sb.free_blocks - n) as u64,
                    full_blocks: (x.sb.full_blocks + n) as u64,
                    ..x.sb
                },
                gs,
            );
            (
                Img { d: d3, sb: sb3, ..x },
                match r3 {
                    Err(e) => Err(e),
                    Ok(_) => Ok(fmt::addr_of(ag, (s * 256) as u32)),
                },
            )
        }
    }
}

// --- inode slots --------------------------------------------------------------

/// The first zeroed slot from `k` to `end` of the group.
pub open spec fn spare_slot(v: Vol, isz: u16, ag: u32, k: int, end: int) -> Result<u64, FsError>
    decreases end - k,
{
    if k >= end {
        Err(FsError::NoInodeSlot)
    } else {
        match fs::slot_bytes(v, isz, fmt::addr_of(ag, k as u32)) {
            Err(e) => Err(e),
            Ok(b) => if fmt::zero_bytes(b, 0, INODE_SIZE as int) {
                Ok(fmt::addr_of(ag, k as u32))
            } else {
                spare_slot(v, isz, ag, k + 1, end)
            },
        }
    }
}

/// The first zeroed slot of the block that holds the root inode.
pub open spec fn slot_found(v: Vol, isz: u16, root: u64) -> Result<u64, FsError> {
    let slots = v.bs / isz as u32;
    let at = fmt::addr_local(root);
    let base = at - at % slots;
    if isz == 0 || slots == 0 || base + slots > u32::MAX {
        Err(FsError::Corrupt)
    } else {
        spare_slot(v, isz, fmt::addr_ag(root), base, base + slots)
    }
}

// --- directories and files ----------------------------------------------------

/// The entries of a directory. One that is hashed takes blocks of 2048 bytes at least.
pub open spec fn entries_in(v: Vol, isz: u16, ino: u64) -> Result<Seq<Dirent>, FsError> {
    match fs::inode_of(v, isz, ino) {
        Err(e) => Err(e),
        Ok(i) => if i.spec_is_dir() && v.bs < 2048 && i.format != FMT_EMPTY && i.format
            != FMT_EMBED {
            Err(FsError::DirFormat(i.format))
        } else {
            dir::listed(v, Map::empty(), i.spec_is_dir(), mapping::mp_of(i))
        },
    }
}

/// The inode of the first entry with that name.
pub open spec fn named(es: Seq<Dirent>, name: Seq<char>) -> Option<u64>
    decreases es.len(),
{
    if es.len() == 0 {
        None
    } else if es[0].name == name {
        Some(es[0].ino)
    } else {
        named(es.skip(1), name)
    }
}

pub open spec fn looked_up(v: Vol, isz: u16, dir: u64, name: Seq<char>) -> Result<
    Option<u64>,
    FsError,
> {
    match entries_in(v, isz, dir) {
        Err(e) => Err(e),
        Ok(es) => Ok(named(es, name)),
    }
}

/// Block `f` of a file: the one that it is mapped to, or zeros.
pub open spec fn block_read(v: Vol, m: Mp, f: int) -> Result<Seq<u8>, FsError> {
    match mapping::map_of(v, Map::empty(), m, f) {
        Err(e) => Err(e),
        Ok(Mapping::Hole(_)) => Ok(fmt::zeros(v.bs as nat)),
        Ok(Mapping::Run { blk, len: _ }) => vol::rd0(v, blk),
    }
}

/// Blocks `f` to `n` of a file, behind `done`.
pub open spec fn blocks_read(v: Vol, m: Mp, done: Seq<u8>, f: int, n: int) -> Result<
    Seq<u8>,
    FsError,
>
    decreases n - f,
{
    if f >= n {
        Ok(done)
    } else {
        match block_read(v, m, f) {
            Err(e) => Err(e),
            Ok(b) => blocks_read(v, m, done + b, f + 1, n),
        }
    }
}

/// The contents of a file: the blocks that it maps, and zeros between them. A size that
/// no buffer can hold counts as damage. A tree takes blocks of 2048 bytes at least.
pub open spec fn file_data(v: Vol, i: Inode) -> Result<Seq<u8>, FsError> {
    let n = fmt::ceil_div(i.size as int, v.bs as int);
    if i.format == FMT_EMPTY {
        Ok(Seq::empty())
    } else if i.format == FMT_EMBED {
        if i.size > INODE_PAYLOAD {
            Err(FsError::Corrupt)
        } else {
            Ok(i.payload@.take(i.size as int))
        }
    } else if i.format == FMT_EXTENT || (i.format == FMT_TREE && v.bs >= 2048) {
        if n * v.bs > usize::MAX {
            Err(FsError::Corrupt)
        } else {
            match blocks_read(v, mapping::mp_of(i), Seq::empty(), 0, n) {
                Err(e) => Err(e),
                Ok(d) => Ok(d.take(i.size as int)),
            }
        }
    } else {
        Err(FsError::FileFormat(i.format))
    }
}

pub open spec fn file_of(v: Vol, isz: u16, ino: u64) -> Result<Seq<u8>, FsError> {
    match fs::inode_of(v, isz, ino) {
        Err(e) => Err(e),
        Ok(i) => file_data(v, i),
    }
}

// --- import -------------------------------------------------------------------

/// The inode of an imported file, over that payload.
pub open spec fn file_inode(
    format: u8,
    mode: u16,
    size: int,
    nblocks: int,
    now: Ts,
    p: Seq<u8>,
) -> Inode {
    Inode {
        format,
        mode: (0x8000 + mode % 0x1000) as u16,
        nlink: 1,
        uid: 0,
        gid: 0,
        flags: 0,
        gen: 0,
        size: size as u64,
        nblocks: nblocks as u64,
        atime: now,
        mtime: now,
        ctime: now,
        btime: now,
        xattr: 0,
        payload: mkfs::payload(p),
    }
}

/// Storing the data of a new file with inode number `ino`: nothing for an
/// empty one, in the inode if it fits there, else in whole cells.
#[verifier::opaque]
pub open spec fn data_stored(x: Img, ino: u64, data: Seq<u8>, mode: u16, now: Ts) -> (
    Img,
    Result<Inode, FsError>,
) {
    let bs = x.sb.blocksize;
    let len = data.len() as int;
    if len == 0 {
        (x, Ok(file_inode(FMT_EMPTY, mode, 0, 0, now, fmt::zeros(128))))
    } else if len <= INODE_PAYLOAD {
        (
            x,
            Ok(
                file_inode(
                    FMT_EMBED,
                    mode,
                    len,
                    0,
                    now,
                    fmt::splice(fmt::zeros(128), 0, data),
                ),
            ),
        )
    } else {
        let cells = fmt::ceil_div(len, 256 * bs);
        let n = fmt::ceil_div(len, bs as int);
        let (y, r) = cells_allocated(x, fmt::addr_ag(ino), cells);
        match r {
            Err(e) => (y, Err(e)),
            Ok(blk) => {
                let (d1, r1) = device::dev_writes(
                    y.d,
                    run_writes(y.m.entries, bs, fmt::addr_ag(blk), fmt::addr_local(blk), data),
                );
                (
                    Img { d: d1, ..y },
                    match r1 {
                        Err(e) => Err(e),
                        Ok(_) => Ok(
                            file_inode(
                                FMT_EXTENT,
                                mode,
                                len,
                                cells * 256,
                                now,
                                inode::extents_image(
                                    seq![Extent { file_block: 0, blk, blocks: n as u32 }],
                                ),
                            ),
                        ),
                    },
                )
            },
        }
    }
}

/// Storing an inode in its slot.
pub open spec fn inode_stored(x: Img, ino: u64, i: Inode) -> (Img, Result<(), FsError>) {
    match fs::inode_place(x.m.entries, x.sb.blocksize, x.sb.inodesize, ino) {
        Err(e) => (x, Err(e)),
        Ok(off) => {
            let (d1, r) = device::dev_write(x.d, off, inode::inode_bytes(i));
            (Img { d: d1, ..x }, r)
        },
    }
}

/// Adding an entry to the root directory.
#[verifier::opaque]
pub open spec fn entry_stored(x: Img, e: Dirent, now: Ts) -> (Img, Result<(), FsError>) {
    let v = Vol { bytes: x.d.bytes, groups: x.m.entries, bs: x.sb.blocksize };
    match fs::inode_of(v, x.sb.inodesize, x.sb.root_ino) {
        Err(f) => (x, Err(f)),
        Ok(root) => {
            let p = if root.format == FMT_EMPTY {
                fmt::zeros(128)
            } else {
                root.payload@
            };
            match dirent::dir_appended(p, e) {
                Err(f) => (x, Err(FsError::Encode(f))),
                Ok(q) => inode_stored(
                    x,
                    x.sb.root_ino,
                    Inode {
                        format: if root.format == FMT_EMPTY {
                            FMT_EMBED
                        } else {
                            root.format
                        },
                        payload: mkfs::payload(q),
                        mtime: now,
                        ctime: now,
                        ..root
                    },
                ),
            }
        },
    }
}

/// An import adds to a root directory that is empty or embedded.
pub open spec fn root_takes(v: Vol, isz: u16, root: u64) -> Result<(), FsError> {
    match fs::inode_of(v, isz, root) {
        Err(e) => Err(e),
        Ok(i) => if i.format != FMT_EMPTY && i.format != FMT_EMBED {
            Err(FsError::DirFormat(i.format))
        } else {
            Ok(())
        },
    }
}

/// What stands against a new file of that name in the root directory.
pub open spec fn name_taken(v: Vol, isz: u16, root: u64, name: Seq<char>) -> Result<(), FsError> {
    match looked_up(v, isz, root, name) {
        Err(e) => Err(e),
        Ok(Some(_)) => Err(FsError::Exists),
        Ok(None) => root_takes(v, isz, root),
    }
}

/// Importing `data` as a new file of that name in the root directory.
pub open spec fn imported(x: Img, name: Seq<char>, data: Seq<u8>, mode: u16, now: Ts) -> (
    Img,
    Result<u64, FsError>,
) {
    let v = Vol { bytes: x.d.bytes, groups: x.m.entries, bs: x.sb.blocksize };
    let isz = x.sb.inodesize;
    if !x.d.writable {
        (x, Err(FsError::ReadOnly))
    } else {
        match name_taken(v, isz, x.sb.root_ino, name) {
            Err(e) => (x, Err(e)),
            Ok(_) => match slot_found(v, isz, x.sb.root_ino) {
                Err(e) => (x, Err(e)),
                Ok(ino) => {
                    let (y, r) = data_stored(x, ino, data, mode, now);
                    match r {
                        Err(e) => (y, Err(e)),
                        Ok(i) => {
                            let (z, r1) = inode_stored(y, ino, i);
                            match r1 {
                                Err(e) => (z, Err(e)),
                                Ok(_) => {
                                    let (w, r2) = entry_stored(
                                        z,
                                        Dirent { ino, ftype: DT_FILE, name },
                                        now,
                                    );
                                    match r2 {
                                        Err(e) => (w, Err(e)),
                                        Ok(_) => (
                                            Img { d: device::dev_sync(w.d), ..w },
                                            Ok(ino),
                                        ),
                                    }
                                },
                            }
                        },
                    }
                },
            },
        }
    }
}

/// The address of block `local + i` of a group.
fn run_block(ag: u32, local: u32, i: u64) -> (r: Result<u64, FsError>)
    ensures
        r == run_addr(ag, local, i as int),
{
    if i > (u32::MAX - local) as u64 {
        return Err(FsError::Corrupt);
    }
    Ok(blk_addr(ag, local + i as u32))
}

/// Block `i` of `data`, the last one zero-padded.
fn cut_chunk(data: &[u8], bs: usize, i: usize) -> (r: Vec<u8>)
    requires
        bs > 0,
        i < fmt::ceil_div(data@.len() as int, bs as int),
    ensures
        r@ == chunk(data@, bs as int, i as int),
{
    let n = data.len();
    proof {
        fmt::lemma_ceil_div(n as int, bs as int);
        let q = fmt::ceil_div(n as int, bs as int);
        assert(i * bs < n) by (nonlinear_arith)
            requires
                0 <= i <= q - 1,
                n > 0 ==> (q - 1) * bs < n,
                n == 0 ==> q == 0,
                bs > 0,
        ;
    }
    let lo = i * bs;
    let hi = if n - lo < bs { n } else { lo + bs };
    let mut out = zero_vec(bs);
    put_bytes(&mut out, 0, &data[lo..hi]);
    assert(out@ =~= chunk(data@, bs as int, i as int));
    out
}

/// The first entry with that name.
fn find_name(es: &Vec<DirEntry>, name: &str) -> (r: Option<u64>)
    ensures
        r == named(dirent::dirents(es@), name@),
{
    let ghost all = dirent::dirents(es@);
    let mut k: usize = 0;
    assert(all.skip(0) =~= all);
    while k < es.len()
        invariant
            k <= es@.len(),
            all == dirent::dirents(es@),
            named(all, name@) == named(all.skip(k as int), name@),
        decreases es@.len() - k,
    {
        proof {
            assert(all.skip(k as int)[0] == es@[k as int]@);
            assert(all.skip(k as int).skip(1) =~= all.skip(k + 1));
        }
        if same_str(es[k].name.as_str(), name) {
            return Some(es[k].ino);
        }
        k = k + 1;
    }
    None
}

/// The first run of `count` free cells.
fn find_free_run(table: &Vec<u8>, cells: u64, count: u64) -> (r: Option<u64>)
    requires
        (cells + 3) / 4 <= table@.len(),
        cells <= 0x100_0000,
    ensures
        match r {
            Some(s) => count > 0 && first_free_run(table@, cells as int, count as int) == Some(
                s as int,
            ) && is_first_run(table@, cells as int, count as int, s as int),
            None => first_free_run(table@, cells as int, count as int) is None,
        },
{
    if count == 0 {
        return None;
    }
    let mut start: u64 = 0;
    let mut c: u64 = 0;
    while c < cells
        invariant
            start <= c <= cells,
            count > 0,
            c - start < count,
            cells <= 0x100_0000,
            (cells + 3) / 4 <= table@.len(),
            free_run(table@, start as int, c - start),
            forall|r: int| 0 <= r < start ==> !(#[trigger] free_run(table@, r, count as int)),
        decreases cells - c,
    {
        if cell_get(table, c) == CELL_FREE {
            c = c + 1;
            if c - start == count {
                proof {
                    let t = table@;
                    let k = count as int;
                    assert(is_first_run(t, cells as int, k, start as int));
                    let s = choose|s: int| is_first_run(t, cells as int, k, s);
                    assert(s == start) by {
                        if s < start {
                            assert(!free_run(t, s, k));
                        } else if start < s {
                            assert(!free_run(t, start as int, k));
                        }
                    }
                }
                return Some(start);
            }
        } else {
            proof {
                assert forall|r: int| 0 <= r <= c implies !(#[trigger] free_run(
                    table@,
                    r,
                    count as int,
                )) by {
                    if r >= start {
                        assert(fmt::cell_at(table@, c as int) != CELL_FREE);
                        assert(r <= c < r + count);
                    }
                }
            }
            c = c + 1;
            start = c;
        }
    }
    proof {
        if exists|s: int| is_first_run(table@, cells as int, count as int, s) {
            let s = choose|s: int| is_first_run(table@, cells as int, count as int, s);
            assert(free_run(table@, s, count as int));
        }
    }
    None
}

impl Gofs {
    /// Read `n` blocks from `local` on.
    fn read_run(&self, ag: u32, local: u32, n: u64) -> (r: Result<Vec<u8>, FsError>)
        requires
            self.wf(),
        ensures
            match r {
                Ok(b) => run_read(self.vol(), ag, local, Seq::empty(), 0, n as int) == Ok::<
                    Seq<u8>,
                    FsError,
                >(b@) && b@.len() == n * self.sb.blocksize,
                Err(e) => run_read(self.vol(), ag, local, Seq::empty(), 0, n as int) == Err::<
                    Seq<u8>,
                    FsError,
                >(e),
            },
    {
        let mut out: Vec<u8> = Vec::new();
        let ghost want = run_read(self.vol(), ag, local, Seq::empty(), 0, n as int);
        let mut i: u64 = 0;
        assert(out@ =~= Seq::<u8>::empty());
        while i < n
            invariant
                i <= n,
                self.wf(),
                out@.len() == i * self.sb.blocksize,
                want == run_read(self.vol(), ag, local, Seq::empty(), 0, n as int),
                want == run_read(self.vol(), ag, local, out@, i as int, n as int),
            decreases n - i,
        {
            let blk = run_block(ag, local, i)?;
            let b = self.read_block(blk)?;
            let ghost before = out@;
            let mut bv = b;
            out.append(&mut bv);
            assert(out@ =~= before + b@);
            assert((i + 1) * self.sb.blocksize == i * self.sb.blocksize + self.sb.blocksize)
                by (nonlinear_arith);
            i = i + 1;
        }
        Ok(out)
    }

    /// Store `data` in the blocks from `local` on.
    fn write_run(&mut self, ag: u32, local: u32, data: &[u8]) -> (r: Result<(), FsError>)
        requires
            old(self).wf(),
        ensures
            final(self).wf(),
            final(self).sb == old(self).sb,
            final(self).map == old(self).map,
            (final(self).dev@, r) == device::dev_writes(
                old(self).dev@,
                run_writes(old(self).map@.entries, old(self).sb.blocksize, ag, local, data@),
            ),
    {
        let bs = self.sb.blocksize;
        let n = div_up(data.len() as u64, bs as u64);
        let ghost all = run_writes(self.map@.entries, bs, ag, local, data@);
        let mut i: u64 = 0;
        assert(all.skip(0) =~= all);
        while i < n
            invariant
                i <= n,
                n <= data@.len(),
                n == fmt::ceil_div(data@.len() as int, bs as int),
                bs == self.sb.blocksize,
                self.wf(),
                self.sb == old(self).sb,
                self.map == old(self).map,
                all == run_writes(self.map@.entries, bs, ag, local, data@),
                device::dev_writes(old(self).dev@, all) == device::dev_writes(
                    self.dev@,
                    all.skip(i as int),
                ),
            decreases n - i,
        {
            proof {
                assert(all.skip(i as int)[0] == all[i as int]);
                assert(all.skip(i as int).skip(1) =~= all.skip(i + 1));
                assert(data.len() == data@.len());
            }
            let blk = run_block(ag, local, i)?;
            let b = cut_chunk(data, bs as usize, i as usize);
            self.write_block(blk, &b)?;
            i = i + 1;
        }
        Ok(())
    }

    // --- root table ------------------------------------------------------------

    pub fn read_root_table(&self, hdr: &AgHeader) -> (r: Result<Vec<u8>, FsError>)
        requires
            self.wf(),
        ensures
            match r {
                Ok(t) => root_table_of(self.vol(), *hdr) == Ok::<Seq<u8>, FsError>(t@) && t@.len()
                    == header::table_blocks(hdr.length, self.sb.blocksize) * self.sb.blocksize,
                Err(e) => root_table_of(self.vol(), *hdr) == Err::<Seq<u8>, FsError>(e),
            },
    {
        let n = rt_table_blocks(hdr.length, self.sb.blocksize);
        self.read_run(hdr.ag_num, hdr.alloc_root, n as u64)
    }

    pub fn write_root_table(&mut self, hdr: &AgHeader, table: &[u8]) -> (r: Result<(), FsError>)
        requires
            old(self).wf(),
        ensures
            final(self).wf(),
            final(self).sb == old(self).sb,
            final(self).map == old(self).map,
            (final(self).dev@, r) == device::dev_writes(
                old(self).dev@,
                run_writes(
                    old(self).map@.entries,
                    old(self).sb.blocksize,
                    hdr.ag_num,
                    hdr.alloc_root,
                    table@,
                ),
            ),
    {
        self.write_run(hdr.ag_num, hdr.alloc_root, table)
    }

    /// Allocate `count` consecutive FREE level-0 cells in `ag`, marking them
    /// FULL. Returns the block address of the first block. The allocation unit
    /// is a whole cell.
    #[verifier::rlimit(30)]
    pub fn alloc_cells(&mut self, ag: u32, count: u64) -> (r: Result<u64, FsError>)
        requires
            old(self).wf(),
        ensures
            final(self).wf(),
            (resize::img_of(*final(self)), r) == cells_allocated(
                resize::img_of(*old(self)),
                ag,
                count as int,
            ),
    {
        proof {
            reveal(cells_allocated);
        }
        let hdr = self.read_ag_header(ag)?;
        let (cells, _) = rt_geometry(hdr.length, self.sb.blocksize);
        let mut table = self.read_root_table(&hdr)?;
        let _ = rt_table_blocks(hdr.length, self.sb.blocksize);
        proof {
            fmt::lemma_ceil_div(cells as int, 4);
        }
        let start = match find_free_run(&table, cells, count) {
            Some(s) => s,
            None => return Err(FsError::NoRoom { ag, cells: count }),
        };
        let n = count * CELL_BLOCKS as u64;
        if (hdr.free_blocks as u64) < n || hdr.full_blocks as u64 + n > u32::MAX as u64 || hdr.gen
            == u64::MAX || self.sb.free_blocks < n || self.sb.full_blocks > u64::MAX - n {
            return Err(FsError::Corrupt);
        }
        resize::fill_cells(&mut table, start, start + count, CELL_FULL);
        let mut hdr1 = hdr;
        hdr1.free_blocks = hdr.free_blocks - n as u32;
        hdr1.full_blocks = hdr.full_blocks + n as u32;
        hdr1.gen = hdr.gen + 1;
        self.write_root_table(&hdr, &table)?;
        self.write_ag_header(&hdr1)?;
        self.sb.free_blocks = self.sb.free_blocks - n;
        self.sb.full_blocks = self.sb.full_blocks + n;
        self.write_superblock()?;
        Ok(blk_addr(ag, (start * CELL_BLOCKS as u64) as u32))
    }

    // --- inode slots -----------------------------------------------------------

    /// Find a free (zeroed) slot in the inode block that also holds the root
    /// inode.
    pub fn alloc_inode_slot(&self) -> (r: Result<u64, FsError>)
        requires
            self.wf(),
        ensures
            r == slot_found(self.vol(), self.sb.inodesize, self.sb.root_ino),
    {
        let (ag, root_slot) = blk_split(self.sb.root_ino);
        let isz = self.sb.inodesize;
        if isz == 0 {
            return Err(FsError::Corrupt);
        }
        let slots = self.sb.blocksize / isz as u32;
        if slots == 0 {
            return Err(FsError::Corrupt);
        }
        let rest = root_slot % slots;
        assert(rest <= root_slot) by (nonlinear_arith)
            requires
                rest == root_slot % slots,
                slots > 0,
        ;
        let base = root_slot - rest;
        if base > u32::MAX - slots {
            return Err(FsError::Corrupt);
        }
        let ghost want = spare_slot(self.vol(), isz, ag, base as int, base + slots);
        let mut s = base;
        while s < base + slots
            invariant
                base <= s <= base + slots <= u32::MAX,
                self.wf(),
                isz == self.sb.inodesize,
                want == slot_found(self.vol(), isz, self.sb.root_ino),
                want == spare_slot(self.vol(), isz, ag, s as int, base + slots),
            decreases base + slots - s,
        {
            let ino = ino_addr(ag, s);
            let mut buf = [0u8; 256];
            let off = self.inode_phys(ino)?;
            self.dev.pread(&mut buf, off)?;
            if all_zero(&buf) {
                return Ok(ino);
            }
            s = s + 1;
        }
        Err(FsError::NoInodeSlot)
    }

    // --- directories -----------------------------------------------------------

    /// The entries of a directory, any format; a hashed one's in order of name.
    pub fn dir_entries(&self, ino: u64) -> (r: Result<Vec<DirEntry>, FsError>)
        requires
            self.wf(),
        ensures
            match r {
                Ok(es) => entries_in(self.vol(), self.sb.inodesize, ino) == Ok::<
                    Seq<Dirent>,
                    FsError,
                >(dirent::dirents(es@)),
                Err(e) => entries_in(self.vol(), self.sb.inodesize, ino) == Err::<
                    Seq<Dirent>,
                    FsError,
                >(e),
            },
    {
        let inode = self.read_inode(ino)?;
        if inode.is_dir() && self.sb.blocksize < 2048 {
            if inode.format == FMT_EMPTY {
                let es: Vec<DirEntry> = Vec::new();
                assert(dirent::dirents(es@) =~= Seq::<Dirent>::empty());
                return Ok(es);
            }
            if inode.format == FMT_EMBED {
                return Ok(dir_parse(&inode.payload));
            }
            return Err(FsError::DirFormat(inode.format));
        }
        if !inode.is_dir() {
            return Err(FsError::NotADirectory);
        }
        let t = self.txn();
        self.dir_list(&t, &inode)
    }

    pub fn dir_lookup(&self, dir: u64, name: &str) -> (r: Result<Option<u64>, FsError>)
        requires
            self.wf(),
        ensures
            r == looked_up(self.vol(), self.sb.inodesize, dir, name@),
    {
        let es = self.dir_entries(dir)?;
        Ok(find_name(&es, name))
    }

    // --- file data -------------------------------------------------------------

    /// Read a file block by block, through its mapping.
    fn read_blocks(&self, inode: &Inode) -> (r: Result<Vec<u8>, FsError>)
        requires
            self.wf(),
            inode.format == FMT_EXTENT || (inode.format == FMT_TREE && self.sb.blocksize >= 2048),
        ensures
            match r {
                Ok(d) => file_data(self.vol(), *inode) == Ok::<Seq<u8>, FsError>(d@),
                Err(e) => file_data(self.vol(), *inode) == Err::<Seq<u8>, FsError>(e),
            },
    {
        let bs = self.sb.blocksize as u64;
        let n = div_up(inode.size, bs);
        assert(n * bs <= 0xffff_ffff_ffff_ffff * 0xffff_ffff) by (nonlinear_arith)
            requires
                0 <= n <= 0xffff_ffff_ffff_ffff,
                0 <= bs <= 0xffff_ffff,
        ;
        if n as u128 * bs as u128 > usize::MAX as u128 {
            return Err(FsError::Corrupt);
        }
        let t = self.txn();
        let mut data: Vec<u8> = Vec::new();
        let ghost m = mapping::mp_of(*inode);
        let ghost want = blocks_read(self.vol(), m, Seq::empty(), 0, n as int);
        assert(data@ =~= Seq::<u8>::empty());
        assert(file_data(self.vol(), *inode) == match want {
            Err(e) => Err::<Seq<u8>, FsError>(e),
            Ok(d) => Ok::<Seq<u8>, FsError>(d.take(inode.size as int)),
        });
        let mut f: u64 = 0;
        while f < n
            invariant
                f <= n,
                self.wf(),
                t@ == Map::<u64, Seq<u8>>::empty(),
                t.wf(self.sb.blocksize),
                inode.format == FMT_TREE ==> self.sb.blocksize >= 2048,
                bs == self.sb.blocksize,
                m == mapping::mp_of(*inode),
                data@.len() == f * bs,
                n * bs <= usize::MAX,
                want == blocks_read(self.vol(), m, data@, f as int, n as int),
                file_data(self.vol(), *inode) == match want {
                    Err(e) => Err::<Seq<u8>, FsError>(e),
                    Ok(d) => Ok::<Seq<u8>, FsError>(d.take(inode.size as int)),
                },
            decreases n - f,
        {
            let mut b = match self.map_lookup(&t, inode, f)? {
                Mapping::Hole(_) => {
                    let z = zero_vec(bs as usize);
                    assert(z@ =~= fmt::zeros(bs as nat));
                    z
                },
                Mapping::Run { blk, len: _ } => self.read_block(blk)?,
            };
            assert(f * bs + bs == (f + 1) * bs && (f + 1) * bs <= n * bs) by (nonlinear_arith)
                requires
                    f < n,
                    bs >= 0,
            ;
            data.append(&mut b);
            f = f + 1;
        }
        proof {
            fmt::lemma_ceil_div(inode.size as int, bs as int);
        }
        Ok(sub_vec(&data, 0, inode.size as usize))
    }

    pub fn read_file(&self, ino: u64) -> (r: Result<Vec<u8>, FsError>)
        requires
            self.wf(),
        ensures
            match r {
                Ok(d) => file_of(self.vol(), self.sb.inodesize, ino) == Ok::<Seq<u8>, FsError>(d@),
                Err(e) => file_of(self.vol(), self.sb.inodesize, ino) == Err::<Seq<u8>, FsError>(e),
            },
    {
        let inode = self.read_inode(ino)?;
        if inode.format == FMT_EMPTY {
            let d: Vec<u8> = Vec::new();
            assert(d@ =~= Seq::<u8>::empty());
            Ok(d)
        } else if inode.format == FMT_EMBED {
            if inode.size > INODE_PAYLOAD as u64 {
                return Err(FsError::Corrupt);
            }
            let d = sub_vec(&inode.payload, 0, inode.size as usize);
            assert(d@ =~= inode.payload@.take(inode.size as int));
            Ok(d)
        } else if inode.format == FMT_EXTENT || (inode.format == FMT_TREE && self.sb.blocksize
            >= 2048) {
            self.read_blocks(&inode)
        } else {
            Err(FsError::FileFormat(inode.format))
        }
    }
}

/// The inode of a new file, over an empty payload.
fn new_file(format: u8, mode: u16, size: u64, nblocks: u64, now: Ts) -> (r: Inode)
    ensures
        r == file_inode(format, mode, size as int, nblocks as int, now, fmt::zeros(128)),
        r.payload@ == fmt::zeros(128),
{
    let r = Inode {
        format,
        mode: 0x8000 + mode % 0x1000,
        nlink: 1,
        size,
        nblocks,
        atime: now,
        mtime: now,
        ctime: now,
        btime: now,
        ..Inode::default()
    };
    proof {
        assert(mkfs::payload(fmt::zeros(128))@ == r.payload@);
        assert(mkfs::payload(fmt::zeros(128)) =~= r.payload);
    }
    r
}

impl Gofs {
    /// Store the data of a new file; returns its inode.
    #[verifier::rlimit(30)]
    fn store_data(&mut self, ino: u64, data: &[u8], mode: u16, now: Ts) -> (r: Result<
        Inode,
        FsError,
    >)
        requires
            old(self).wf(),
        ensures
            final(self).wf(),
            (resize::img_of(*final(self)), r) == data_stored(
                resize::img_of(*old(self)),
                ino,
                data@,
                mode,
                now,
            ),
    {
        proof {
            reveal(data_stored);
        }
        let len = data.len();
        if len == 0 {
            return Ok(new_file(FMT_EMPTY, mode, 0, 0, now));
        }
        if len <= INODE_PAYLOAD {
            let mut i = new_file(FMT_EMBED, mode, len as u64, 0, now);
            put_bytes(&mut i.payload, 0, data);
            proof {
                let q = fmt::splice(fmt::zeros(128), 0, data@);
                assert(mkfs::payload(q)@ == i.payload@);
                assert(mkfs::payload(q) =~= i.payload);
            }
            return Ok(i);
        }
        let bs = self.sb.blocksize as u64;
        let cells = div_up(len as u64, CELL_BLOCKS as u64 * bs);
        let n = div_up(len as u64, bs);
        let (ag, _) = blk_split(ino);
        let ghost x = resize::img_of(*self);
        let blk = self.alloc_cells(ag, cells)?;
        proof {
            lemma_cells_fit(x, ag, cells as int, len as int);
        }
        let (at, local) = blk_split(blk);
        self.write_run(at, local, data)?;
        let mut i = new_file(FMT_EXTENT, mode, len as u64, cells * CELL_BLOCKS as u64, now);
        let e = Extent { file_block: 0, blk, blocks: n as u32 };
        let _ = extents_store(&mut i.payload, &[e]);
        proof {
            assert([e]@ =~= seq![e]);
            let q = inode::extents_image(seq![e]);
            assert(mkfs::payload(q)@ == i.payload@);
            assert(mkfs::payload(q) =~= i.payload);
        }
        Ok(i)
    }

    /// Add an entry to the root directory.
    #[verifier::rlimit(30)]
    fn store_entry(&mut self, ino: u64, name: &str, now: Ts) -> (r: Result<(), FsError>)
        requires
            old(self).wf(),
        ensures
            final(self).wf(),
            (resize::img_of(*final(self)), r) == entry_stored(
                resize::img_of(*old(self)),
                Dirent { ino, ftype: DT_FILE, name: name@ },
                now,
            ),
    {
        proof {
            reveal(entry_stored);
        }
        let root_ino = self.sb.root_ino;
        let mut root = self.read_inode(root_ino)?;
        let ghost root0 = root;
        if root.format == FMT_EMPTY {
            root.format = FMT_EMBED;
            root.payload = [0u8; 128];
            assert(root.payload@ =~= fmt::zeros(128));
        }
        let e = DirEntry { ino, ftype: DT_FILE, name: name.to_owned() };
        match dir_append(&mut root.payload, &e) {
            Ok(_) => {},
            Err(f) => return Err(FsError::Encode(f)),
        }
        root.mtime = now;
        root.ctime = now;
        proof {
            let q = root.payload@;
            assert(mkfs::payload(q)@ == root.payload@);
            assert(mkfs::payload(q) =~= root.payload);
        }
        self.write_inode(root_ino, &root)
    }

    /// Store `data` as a new file named `name` in the root directory, made at
    /// `now`.
    pub fn import_at(&mut self, name: &str, data: &[u8], mode: u16, now: Ts) -> (r: Result<
        u64,
        FsError,
    >)
        requires
            old(self).wf(),
        ensures
            final(self).wf(),
            (resize::img_of(*final(self)), r) == imported(
                resize::img_of(*old(self)),
                name@,
                data@,
                mode,
                now,
            ),
    {
        if !self.dev.writable {
            return Err(FsError::ReadOnly);
        }
        if self.dir_lookup(self.sb.root_ino, name)?.is_some() {
            return Err(FsError::Exists);
        }
        let root = self.read_inode(self.sb.root_ino)?;
        if root.format != FMT_EMPTY && root.format != FMT_EMBED {
            return Err(FsError::DirFormat(root.format));
        }
        let ino = self.alloc_inode_slot()?;
        let inode = self.store_data(ino, data, mode, now)?;
        self.write_inode(ino, &inode)?;
        self.store_entry(ino, name, now)?;
        self.dev.sync();
        Ok(ino)
    }

    /// Offline import: store `data` as a new file named `name` in the root
    /// directory. EMBED if it fits the payload, otherwise inline extents over
    /// whole level-0 cells.
    pub fn import(&mut self, name: &str, data: &[u8], mode: u16) -> (r: Result<u64, FsError>)
        requires
            old(self).wf(),
        ensures
            final(self).wf(),
            exists|now: Ts|
                now.nsec < 1_000_000_000 && (resize::img_of(*final(self)), r)
                    == #[trigger] imported(
                    resize::img_of(*old(self)),
                    name@,
                    data@,
                    mode,
                    now,
                ),
    {
        let now = Ts::now();
        self.import_at(name, data, mode, now)
    }
}

/// Cells that could be allocated are no more than a group has, so the blocks
/// in them can be counted in 32 bits.
pub proof fn lemma_cells_fit(x: Img, ag: u32, count: int, len: int)
    requires
        cells_allocated(x, ag, count).1 is Ok,
        x.sb.blocksize >= 512,
        0 < len,
        count == fmt::ceil_div(len, 256 * x.sb.blocksize),
    ensures
        cells_allocated(x, ag, count).0.sb.blocksize == x.sb.blocksize,
        count * 256 <= u32::MAX,
        0 < fmt::ceil_div(len, x.sb.blocksize as int) <= count * 256,
{
    reveal(cells_allocated);
    let bs = x.sb.blocksize as int;
    let n = fmt::ceil_div(len, bs);
    fmt::lemma_ceil_div(len, 256 * bs);
    fmt::lemma_ceil_div(len, bs);
    assert(n <= count * 256) by (nonlinear_arith)
        requires
            (n - 1) * bs < len,
            count * (256 * bs) >= len,
            bs > 0,
    ;
    assert(0 < n) by (nonlinear_arith)
        requires
            n * bs >= len,
            len > 0,
            bs > 0,
    ;
}

/// Whether an inode slot is zeroed.
fn all_zero(b: &[u8]) -> (r: bool)
    ensures
        r == fmt::zero_bytes(b@, 0, b@.len() as int),
{
    let mut i: usize = 0;
    while i < b.len()
        invariant
            i <= b@.len(),
            forall|k: int| 0 <= k < i ==> b@[k] == 0,
        decreases b@.len() - i,
    {
        if b[i] != 0 {
            assert(b@[i as int] != 0);
            return false;
        }
        i = i + 1;
    }
    true
}

} // verus!
