//! Making a filesystem.
//!
//! AG 0 reserved head: superblock, AG header, allocator root table, AG map
//! copies, journal, optional kernel region. The first two cells after the
//! head are the initial allocator table arena and the inode cell, whose first
//! block is slot-refined and holds the root inode in slot 0 (and the kernel
//! inode in slot 1).

use crate::agmap::{AgEntry, AgMap, AgSegment, Groups};
use crate::device::{Dev, Device};
use crate::dirent::{dir_append, DirEntry, Dirent};
use crate::error::FsError;
use crate::fmt::{
    blk_addr, cell_set, div_up, ino_addr, put_bytes, put_u16, put_u32, seal, zero_vec,
    AGF_IMMOVABLE, AGF_PRESENT, ALLOC_FANOUT, ALLOC_MAGIC, CELL_BLOCKS, CELL_FULL, CELL_REFINED,
    CELL_RSVD, DEFAULT_BLOCKSIZE, DEFAULT_INODESIZE, DT_FILE, FMT_EMBED, FMT_EMPTY, FMT_EXTENT,
    INODE_FLAG_IMMUTABLE,
};
use crate::fs::header_buf;
use crate::header::{rt_geometry, rt_ref_off, rt_table_blocks, AgHeader};
use crate::inode::{extents_store, Extent, Inode, Ts};
use crate::record::{rec_ref_set, rec_state_set, REC_SIZE};
use crate::resize::{build_table, fill_cells};
use crate::superblock::{is_power_of_two, Superblock};
use crate::utf16::utf16_units;
use vstd::prelude::*;

use crate::agmap;
use crate::device;
use crate::dirent;
use crate::fmt;
use crate::fs;
use crate::header;
use crate::inode;
use crate::record;
use crate::resize;
use crate::roottable;
use crate::superblock;
use crate::utf16;

verus! {

pub struct MkfsOpts {
    /// Image size; None = use the device's size.
    pub size: Option<u64>,
    pub blocksize: u32,
    pub inodesize: u16,
    /// Journal size in bytes; None = default (128 MiB capped to size/16, min 4 MiB).
    pub journal: Option<u64>,
    pub label: String,
    /// Kernel image to store contiguously for the bootloader.
    pub kernel: Option<Vec<u8>>,
}

impl Default for MkfsOpts {
    fn default() -> (r: Self)
        ensures
            r.size is None,
            r.blocksize == DEFAULT_BLOCKSIZE,
            r.inodesize == DEFAULT_INODESIZE,
            r.journal is None,
            r.label@ == Seq::<char>::empty(),
            r.kernel is None,
    {
        MkfsOpts {
            size: None,
            blocksize: DEFAULT_BLOCKSIZE,
            inodesize: DEFAULT_INODESIZE,
            journal: None,
            label: String::new(),
            kernel: None,
        }
    }
}

#[derive(Debug, Clone, Copy, PartialEq, Eq, Structural)]
pub struct MkfsSummary {
    pub size: u64,
    pub blocks: u64,
    pub ags: u32,
    pub journal_blocks: u64,
    pub root_ino: u64,
    pub free_blocks: u64,
    pub kernel_offset: u64,
}

/// Maximum AG size we create: 64 GiB.
pub const MAX_AG_BYTES: u64 = 0x10_0000_0000;

/// Reserved bytes for each AG map copy.
pub const AGMAP_BYTES: u64 = 0x1_0000;

/// Smallest device.
pub const MIN_SIZE: u64 = 0x80_0000;

// --- splitting the device -----------------------------------------------------

/// The lengths of the groups that `left` blocks are split into: `max` blocks
/// each, but a rest too short to hold its own metadata joins the group before.
pub open spec fn group_lengths(left: int, max: int) -> Seq<u32>
    decreases left,
{
    if left <= 0 || max <= 0 {
        Seq::empty()
    } else if left < max + 1024 {
        seq![left as u32]
    } else {
        seq![max as u32] + group_lengths(left - max, max)
    }
}

/// Blocks of the first `n` groups.
pub open spec fn blocks_before(lens: Seq<u32>, n: int) -> int
    decreases n,
{
    if n <= 0 {
        0
    } else {
        blocks_before(lens, n - 1) + lens[n - 1]
    }
}

/// Every group but the last is `max` blocks long, no group but the first is
/// shorter than 1024 blocks or `max`, and together they are the `left` blocks.
pub proof fn law_groups_cover_the_device(left: int, max: int)
    requires
        0 < left,
        0 < max <= 0x1000_0000,
    ensures
        ({
            let lens = group_lengths(left, max);
            &&& lens.len() >= 1
            &&& blocks_before(lens, lens.len() as int) == left
            &&& forall|i: int| 0 <= i < lens.len() - 1 ==> lens[i] == max
            &&& forall|i: int|
                0 <= i < lens.len() ==> 0 < #[trigger] lens[i] <= max + 1023
            &&& forall|i: int|
                1 <= i < lens.len() ==> #[trigger] lens[i] >= 1024 || lens[i] == max
        }),
    decreases left,
{
    let lens = group_lengths(left, max);
    reveal_with_fuel(blocks_before, 2);
    if left >= max + 1024 {
        law_groups_cover_the_device(left - max, max);
        let rest = group_lengths(left - max, max);
        lemma_before_cons(max as u32, rest, rest.len() as int);
        assert(forall|i: int| 1 <= i < lens.len() ==> lens[i] == rest[i - 1]);
        assert(rest[0] >= 1024 || rest[0] == max) by {
            assert(left - max >= 1024);
            reveal_with_fuel(group_lengths, 2);
        }
    }
}

proof fn lemma_before_cons(x: u32, rest: Seq<u32>, n: int)
    requires
        0 <= n <= rest.len(),
    ensures
        blocks_before(seq![x] + rest, n + 1) == x + blocks_before(rest, n),
    decreases n,
{
    let all = seq![x] + rest;
    if n > 0 {
        lemma_before_cons(x, rest, n - 1);
        assert(all[n] == rest[n - 1]);
    } else {
        reveal_with_fuel(blocks_before, 2);
    }
}

pub proof fn lemma_before_monotonic(lens: Seq<u32>, i: int, j: int)
    requires
        0 <= i <= j <= lens.len(),
    ensures
        0 <= blocks_before(lens, i) <= blocks_before(lens, j),
    decreases j,
{
    if i < j {
        lemma_before_monotonic(lens, i, j - 1);
    } else if i > 0 {
        lemma_before_monotonic(lens, i - 1, j - 1);
    }
}

fn split_device(total: u64, max: u64) -> (r: Vec<u32>)
    requires
        0 < max <= 0x1000_0000,
    ensures
        r@ == group_lengths(total as int, max as int),
{
    let mut out: Vec<u32> = Vec::new();
    let mut left = total;
    assert(out@ + group_lengths(total as int, max as int) =~= group_lengths(
        total as int,
        max as int,
    ));
    while left > 0
        invariant
            0 < max <= 0x1000_0000,
            out@ + group_lengths(left as int, max as int) == group_lengths(
                total as int,
                max as int,
            ),
        decreases left,
    {
        let len = if left < max { left } else { max };
        let ghost before = out@;
        // avoid a runt AG that can't hold its own metadata
        if left - len > 0 && left - len < 1024 {
            out.push(left as u32);
            assert(before + seq![left as u32] =~= out@);
            return out;
        }
        out.push(len as u32);
        assert(before + (seq![len as u32] + group_lengths(left - len, max as int)) =~= out@
            + group_lengths(left - len, max as int));
        left = left - len;
    }
    assert(out@ + group_lengths(0, max as int) =~= out@);
    out
}

// --- the layout of the first group --------------------------------------------

/// Where everything in the first group stands, in blocks of the group.
#[derive(Debug, Clone, Copy, PartialEq, Eq, Structural)]
pub struct Plan {
    pub length: u32,
    /// Blocks of the root table, which starts at block 2.
    pub table: u32,
    pub map_at: u32,
    pub journal_at: u32,
    pub journal: u32,
    pub kernel_at: u32,
    pub kernel: u32,
    /// First block past the fixed metadata.
    pub next: u32,
    /// Cells that the fixed metadata reaches into.
    pub head: u32,
    pub cells: u32,
    pub free: u32,
}

/// Bytes asked for the journal.
pub open spec fn journal_bytes(size: int, journal: Option<u64>) -> int {
    match journal {
        Some(j) => j as int,
        None => if size / 16 < 0x40_0000 {
            0x40_0000
        } else if size / 16 > 0x800_0000 {
            0x800_0000
        } else {
            size / 16
        },
    }
}

/// The layout of a first group of `len` blocks, for a journal of `journal`
/// bytes and a kernel of `kernel` bytes.
pub open spec fn plan_of(len: u32, bs: u32, journal: int, kernel: int) -> Result<Plan, FsError> {
    let table = header::table_blocks(len, bs);
    let map_at = 2 + table;
    let journal_at = map_at + 2 * fmt::ceil_div(AGMAP_BYTES as int, bs as int);
    let journal_blocks = fmt::ceil_div(journal, bs as int);
    let kernel_at = journal_at + journal_blocks;
    let kernel_blocks = fmt::ceil_div(kernel, bs as int);
    let next = kernel_at + kernel_blocks;
    let head = fmt::ceil_div(next, 256);
    let cells = header::cell_count(len);
    if next + 768 >= len {
        Err(FsError::NoRoomForJournal)
    } else {
        Ok(
            Plan {
                length: len,
                table: table as u32,
                map_at: map_at as u32,
                journal_at: journal_at as u32,
                journal: journal_blocks as u32,
                kernel_at: kernel_at as u32,
                kernel: kernel_blocks as u32,
                next: next as u32,
                head: head as u32,
                cells: cells as u32,
                // all but the head, the arena, the inode block and the last cell
                free: ((cells - head - 3) * 256 + 255) as u32,
            },
        )
    }
}

impl Plan {
    /// Where the kernel's data starts; 0 if there is none.
    pub open spec fn kernel_start(self) -> u32 {
        if self.kernel > 0 {
            self.kernel_at
        } else {
            0
        }
    }

    /// The parts follow one another, and a free cell is left behind the inode
    /// cell.
    pub open spec fn wf(self, bs: u32) -> bool {
        &&& self.length <= 0x1000_0000
        &&& self.table == header::table_blocks(self.length, bs)
        &&& self.cells == header::cell_count(self.length)
        &&& self.map_at == 2 + self.table
        &&& self.journal_at == self.map_at + 2 * fmt::ceil_div(AGMAP_BYTES as int, bs as int)
        &&& self.kernel_at == self.journal_at + self.journal
        &&& self.next == self.kernel_at + self.kernel
        &&& self.head == fmt::ceil_div(self.next as int, 256)
        &&& self.next <= self.head * 256 < self.next + 256
        &&& self.next + 768 < self.length <= self.cells * 256 < self.length + 256
        &&& self.head + 2 < self.cells
        &&& self.free == (self.cells - self.head - 3) * 256 + 255
        &&& self.free < self.length
    }

    /// First block of the table arena.
    pub open spec fn arena(self) -> u32 {
        (self.head * 256) as u32
    }

    /// The block that holds the first inodes.
    pub open spec fn inodes(self) -> u32 {
        ((self.head + 1) * 256) as u32
    }
}

/// The layout of a first group is in order.
pub proof fn lemma_plan(len: u32, bs: u32, journal: int, kernel: int)
    requires
        0 < len <= 0x1000_0000,
        2048 <= bs <= 0x8000_0000,
        0 <= journal,
        0 <= kernel,
    ensures
        plan_of(len, bs, journal, kernel) matches Ok(p) ==> p.wf(bs) && p.length == len && p.kernel
            == fmt::ceil_div(kernel, bs as int) && p.journal == fmt::ceil_div(journal, bs as int),
{
    resize::lemma_table_small(len, bs);
    fmt::lemma_ceil_div(AGMAP_BYTES as int, bs as int);
    fmt::lemma_ceil_div(journal, bs as int);
    fmt::lemma_ceil_div(kernel, bs as int);
    let next = 2 + header::table_blocks(len, bs) + 2 * fmt::ceil_div(
        AGMAP_BYTES as int,
        bs as int,
    ) + fmt::ceil_div(journal, bs as int) + fmt::ceil_div(kernel, bs as int);
    fmt::lemma_ceil_div(next, 256);
}

/// Lay out the first group.
pub fn lay_out(len: u32, bs: u32, journal: u64, kernel: u64) -> (r: Result<Plan, FsError>)
    requires
        0 < len <= 0x1000_0000,
        2048 <= bs <= 0x8000_0000,
    ensures
        r == plan_of(len, bs, journal as int, kernel as int),
        r matches Ok(p) ==> p.wf(bs) && p.length == len && p.kernel == fmt::ceil_div(
            kernel as int,
            bs as int,
        ) && p.journal == fmt::ceil_div(journal as int, bs as int),
{
    proof {
        resize::lemma_table_small(len, bs);
        fmt::lemma_ceil_div(AGMAP_BYTES as int, bs as int);
        fmt::lemma_ceil_div(journal as int, bs as int);
        fmt::lemma_ceil_div(kernel as int, bs as int);
        lemma_blocks_small(AGMAP_BYTES, bs);
        lemma_blocks_small(journal, bs);
        lemma_blocks_small(kernel, bs);
    }
    let (cells, _) = rt_geometry(len, bs);
    let table = rt_table_blocks(len, bs);
    let map_at = 2 + table as u64;
    // AG map copies, block aligned
    let journal_at = map_at + 2 * div_up(AGMAP_BYTES, bs as u64);
    let journal_blocks = div_up(journal, bs as u64);
    // contiguous kernel region
    let kernel_at = journal_at + journal_blocks;
    let kernel_blocks = div_up(kernel, bs as u64);
    let next = kernel_at + kernel_blocks;
    if next + 3 * CELL_BLOCKS as u64 >= len as u64 {
        return Err(FsError::NoRoomForJournal);
    }
    proof {
        fmt::lemma_ceil_div(next as int, 256);
    }
    let head = div_up(next, CELL_BLOCKS as u64);
    Ok(
        Plan {
            length: len,
            table,
            map_at: map_at as u32,
            journal_at: journal_at as u32,
            journal: journal_blocks as u32,
            kernel_at: kernel_at as u32,
            kernel: kernel_blocks as u32,
            next: next as u32,
            head: head as u32,
            cells: cells as u32,
            free: ((cells - head - 3) * CELL_BLOCKS as u64 + 255) as u32,
        },
    )
}

proof fn lemma_blocks_small(n: u64, bs: u32)
    requires
        bs >= 2048,
    ensures
        0 <= fmt::ceil_div(n as int, bs as int) <= 0x20_0000_0000_0000,
{
    fmt::lemma_ceil_div(n as int, bs as int);
    let q = fmt::ceil_div(n as int, bs as int);
    assert(0 <= q <= 0x20_0000_0000_0000) by (nonlinear_arith)
        requires
            n > 0 ==> (q - 1) * bs < n,
            0 <= q <= n,
            n <= 0xffff_ffff_ffff_ffff,
            bs >= 2048,
    ;
}

// --- the contents of the first group ------------------------------------------

/// The root table of the first group: head, arena and last cell (the backup
/// superblock lives there) reserved, the inode cell refined.
pub open spec fn first_table(p: Plan, bs: u32) -> Seq<u8> {
    let t = fmt::zeros((p.table * bs) as nat);
    let t = resize::cells_filled(t, 0, p.head + 1, CELL_RSVD);
    let t = fmt::cell_put(t, p.head + 1, CELL_REFINED);
    let t = fmt::cell_put(t, p.cells - 1, CELL_RSVD);
    fmt::splice(
        t,
        header::state_bytes(p.cells as int) + 6 * (p.head + 1),
        roottable::ref_bytes((p.arena(), 0)),
    )
}

/// A record whose first child is refined by the record at `r`.
pub open spec fn chain_record(r: (u32, u16)) -> Seq<u8> {
    record::with_ref(fmt::cell_put(fmt::zeros(REC_SIZE as nat), 0, CELL_REFINED), 0, r)
}

/// The record of the inode block: slot 0 in use, and slot 1 with a kernel.
pub open spec fn slot_record(kernel: bool) -> Seq<u8> {
    let root = fmt::cell_put(fmt::zeros(REC_SIZE as nat), 0, CELL_FULL);
    if kernel {
        fmt::cell_put(root, 1, CELL_FULL)
    } else {
        root
    }
}

/// The first table block of the arena: the inode cell's record, that of its
/// first part, and that of the inode block.
pub open spec fn arena_block(p: Plan, bs: u32) -> Seq<u8> {
    let b = fmt::splice(fmt::zeros(bs as nat), 0, ALLOC_MAGIC@);
    let b = fmt::splice(b, 16, fmt::be32(7));
    let b = fmt::splice(b, 128, chain_record((p.arena(), 1)));
    let b = fmt::splice(b, 256, chain_record((p.arena(), 2)));
    fmt::sealed(fmt::splice(b, 384, slot_record(p.kernel > 0)))
}

pub open spec fn first_header(p: Plan) -> AgHeader {
    AgHeader {
        ag_num: 0,
        gen: 1,
        length: p.length,
        free_blocks: p.free,
        rsvd_blocks: (p.length - p.free - 1) as u32,
        full_blocks: 1,
        alloc_root: 2,
        ino_hint: p.inodes(),
        data_hint: p.arena(),
        tbl_arena: p.arena(),
    }
}

/// The array with these bytes.
pub open spec fn payload(s: Seq<u8>) -> [u8; 128] {
    choose|a: [u8; 128]| a@ == s
}

/// An array whose first `n` bytes are those of `s`.
spec fn filled_to(s: Seq<u8>, n: int) -> [u8; 128]
    decreases n,
{
    if n <= 0 {
        arbitrary()
    } else {
        vstd::array::spec_array_update(filled_to(s, n - 1), n - 1, s[n - 1])
    }
}

proof fn lemma_filled_to(s: Seq<u8>, n: int)
    requires
        0 <= n <= 128,
        s.len() == 128,
    ensures
        forall|i: int| 0 <= i < n ==> filled_to(s, n)@[i] == s[i],
    decreases n,
{
    if n > 0 {
        lemma_filled_to(s, n - 1);
    }
}

/// There is an array for every 128 bytes.
pub proof fn lemma_payload(s: Seq<u8>)
    requires
        s.len() == 128,
    ensures
        payload(s)@ == s,
{
    lemma_filled_to(s, 128);
    assert(filled_to(s, 128)@ =~= s);
}

/// The entry of the kernel in the root directory.
pub open spec fn kernel_entry(root_ino: u64) -> Dirent {
    Dirent { ino: (root_ino + 1) as u64, ftype: DT_FILE, name: "kernel.bin"@ }
}

/// The root directory: empty, or with the kernel in it.
pub open spec fn root_inode(now: Ts, root_ino: u64, kernel: bool) -> Inode {
    Inode {
        format: if kernel {
            FMT_EMBED
        } else {
            FMT_EMPTY
        },
        mode: 0o040755,
        nlink: 2,
        uid: 0,
        gid: 0,
        flags: 0,
        gen: 0,
        size: 0,
        nblocks: 0,
        atime: now,
        mtime: now,
        ctime: now,
        btime: now,
        xattr: 0,
        payload: if kernel {
            payload(fmt::splice(fmt::zeros(128), 0, dirent::entry_bytes(kernel_entry(root_ino))))
        } else {
            payload(fmt::zeros(128))
        },
    }
}

/// The immutable kernel file of `len` bytes.
pub open spec fn kernel_inode(now: Ts, p: Plan, len: u64) -> Inode {
    Inode {
        format: FMT_EXTENT,
        mode: 0o100644,
        nlink: 1,
        uid: 0,
        gid: 0,
        flags: INODE_FLAG_IMMUTABLE,
        gen: 0,
        size: len,
        nblocks: p.kernel as u64,
        atime: now,
        mtime: now,
        ctime: now,
        btime: now,
        xattr: 0,
        payload: payload(
            inode::extents_image(
                seq![
                    Extent {
                        file_block: 0,
                        blk: fmt::addr_of(0, p.kernel_start()),
                        blocks: p.kernel,
                    },
                ],
            ),
        ),
    }
}

pub open spec fn first_ino(p: Plan, bs: u32, isz: u16) -> u64 {
    fmt::addr_of(0, (p.inodes() * (bs / isz as u32)) as u32)
}

/// A write at a byte offset.
pub open spec fn at(off: int, data: Seq<u8>) -> (Result<u64, FsError>, Seq<u8>) {
    (Ok(off as u64), data)
}

/// The kernel's data, zero-padded to whole blocks, and its inode in slot 1.
pub open spec fn kernel_writes(p: Plan, bs: u32, isz: u16, kernel: Seq<u8>, now: Ts) -> Seq<
    (Result<u64, FsError>, Seq<u8>),
> {
    seq![
        at(p.kernel_at * bs, kernel + fmt::zeros((p.kernel * bs - kernel.len()) as nat)),
        at(p.inodes() * bs + isz, inode::inode_bytes(kernel_inode(now, p, kernel.len() as u64))),
    ]
}

/// What is written to the first group: zeros over the fixed metadata, then
/// the contents.
pub open spec fn first_writes(
    p: Plan,
    bs: u32,
    isz: u16,
    kernel: Option<Seq<u8>>,
    now: Ts,
) -> Seq<(Result<u64, FsError>, Seq<u8>)> {
    let root = inode::inode_bytes(root_inode(now, first_ino(p, bs, isz), kernel is Some));
    seq![
        at(p.arena() * bs, arena_block(p, bs)),
        at(0, fmt::zeros((p.next * bs) as nat)),
        at(bs as int, fs::header_block(first_header(p), bs)),
        at(2 * bs, first_table(p, bs)),
        at(p.inodes() * bs, fmt::zeros(bs as nat)),
    ] + match kernel {
        Some(k) => kernel_writes(p, bs, isz, k, now),
        None => Seq::empty(),
    } + seq![at(p.inodes() * bs, root)]
}

/// What is written to group `i > 0`.
pub open spec fn group_writes(lens: Seq<u32>, bs: u32, i: int) -> Seq<
    (Result<u64, FsError>, Seq<u8>),
> {
    let off = blocks_before(lens, i) * bs;
    let used = 1 + header::table_blocks(lens[i], bs);
    seq![
        at(off, fmt::zeros((used * bs) as nat)),
        at(off, fs::header_block(resize::new_header(i as u32, lens[i], bs), bs)),
        at(off + bs, resize::base_table(lens[i], bs, used)),
    ]
}

/// What is written to the groups from 1 to `n`.
pub open spec fn later_writes(lens: Seq<u32>, bs: u32, n: int) -> Seq<
    (Result<u64, FsError>, Seq<u8>),
>
    decreases n,
{
    if n <= 1 {
        Seq::empty()
    } else {
        later_writes(lens, bs, n - 1) + group_writes(lens, bs, n - 1)
    }
}

/// Free blocks of the groups from 1 to `n`.
pub open spec fn later_free(lens: Seq<u32>, bs: u32, n: int) -> int
    decreases n,
{
    if n <= 1 {
        0
    } else {
        later_free(lens, bs, n - 1) + resize::new_free(lens[n - 1], bs)
    }
}

/// The AG map: the groups one after the other, the first one immovable.
pub open spec fn first_map(lens: Seq<u32>, bs: u32) -> Groups {
    Groups {
        gen: 1,
        entries: Seq::new(
            lens.len(),
            |i: int|
                resize::whole_group(
                    if i == 0 {
                        3
                    } else {
                        1
                    },
                    lens[i],
                    (blocks_before(lens, i) * bs) as u64,
                ),
        ),
    }
}

// --- the superblock -----------------------------------------------------------

/// The first 16 code units of the label, zero-padded.
pub open spec fn label_units(label: Seq<char>) -> Seq<u16> {
    let u = utf16::encode_utf16(label);
    Seq::new(16, |i: int| if i < u.len() { u[i] } else { 0u16 })
}

/// The array with these code units.
pub open spec fn disk_name(s: Seq<u16>) -> [u16; 16] {
    choose|a: [u16; 16]| a@ == s
}

#[verifier::opaque]
pub open spec fn first_super(
    o: MkfsOpts,
    p: Plan,
    lens: Seq<u32>,
    kernel: int,
    uuid: [u8; 16],
) -> Superblock {
    let bs = o.blocksize;
    let free = p.free + later_free(lens, bs, lens.len() as int);
    Superblock {
        compat: 0,
        ro_compat: 0,
        incompat: 0,
        blocksize: bs,
        inodesize: o.inodesize,
        uuid,
        disk_name: disk_name(label_units(o.label@)),
        root_ino: first_ino(p, bs, o.inodesize),
        next_ag: lens.len() as u32,
        agmap_offset: (p.map_at * bs) as u64,
        agmap_length: AGMAP_BYTES,
        journal_start: fmt::addr_of(0, p.journal_at),
        journal_length: p.journal as u64,
        kernel_offset: if p.kernel > 0 {
            (p.kernel_at * bs) as u64
        } else {
            0
        },
        kernel_end: if p.kernel > 0 {
            (p.kernel_at * bs + kernel) as u64
        } else {
            0
        },
        free_blocks: free as u64,
        rsvd_blocks: (blocks_before(lens, lens.len() as int) - free - 1) as u64,
        full_blocks: 1,
        gen: 1,
        journal_seq: 1,
        journal_head: 0,
    }
}

/// What is written last: both copies of the map, an empty journal, the
/// superblock, and its backup in the last block of the first group.
pub open spec fn last_writes(p: Plan, sb: Superblock, m: Groups) -> Seq<
    (Result<u64, FsError>, Seq<u8>),
> {
    let bs = sb.blocksize;
    let map = agmap::map_image(m, AGMAP_BYTES as int);
    seq![
        at(sb.agmap_offset as int, map),
        at(sb.agmap_offset + AGMAP_BYTES, map),
        at(p.journal_at * bs, fmt::zeros((p.journal * bs) as nat)),
        at(0, superblock::sb_bytes(sb)),
        at((p.length - 1) * bs, superblock::sb_bytes(sb)),
    ]
}

// --- the whole ----------------------------------------------------------------

/// Why the options cannot be met on any device.
pub open spec fn opts_flaw(o: MkfsOpts) -> Option<FsError> {
    if !superblock::is_pow2(o.blocksize as int) || o.blocksize < 2048 {
        Some(FsError::MkfsBlocksize)
    } else if !superblock::is_pow2(o.inodesize as int) || o.inodesize < 256 || o.inodesize
        > o.blocksize {
        Some(FsError::MkfsInodesize)
    } else if o.blocksize / o.inodesize as u32 > ALLOC_FANOUT {
        Some(FsError::MkfsSlots)
    } else {
        None
    }
}

/// The device brought to the size asked for.
pub open spec fn sized(d: Dev, o: MkfsOpts) -> Dev {
    match o.size {
        Some(s) => {
            let n = (s - s % o.blocksize as u64) as u64;
            if n == d.bytes.len() {
                d
            } else {
                Dev {
                    bytes: device::applied(d.bytes, device::Io::SetLen(n)),
                    log: d.log.push(device::Io::SetLen(n)),
                    ..d
                }
            }
        },
        None => d,
    }
}

pub open spec fn kernel_of(o: MkfsOpts) -> Option<Seq<u8>> {
    match o.kernel {
        Some(k) => Some(k@),
        None => None,
    }
}

pub open spec fn kernel_len(o: MkfsOpts) -> int {
    match o.kernel {
        Some(k) => k@.len() as int,
        None => 0,
    }
}

/// Writing a filesystem that is laid out by `p` and `lens`.
#[verifier::opaque]
pub open spec fn filled(
    d: Dev,
    o: MkfsOpts,
    p: Plan,
    lens: Seq<u32>,
    uuid: [u8; 16],
    now: Ts,
) -> (Dev, Result<(), FsError>) {
    let bs = o.blocksize;
    let (d1, r1) = device::dev_writes(
        d,
        first_writes(p, bs, o.inodesize, kernel_of(o), now) + later_writes(
            lens,
            bs,
            lens.len() as int,
        ),
    );
    let m = first_map(lens, bs);
    if r1 is Err {
        (d1, r1)
    } else if agmap::groups_size(m.entries) > AGMAP_BYTES {
        (d1, Err(FsError::AgMapCopy(fmt::FmtError::CapacityExceeded)))
    } else {
        let (d2, r2) = device::dev_writes(
            d1,
            last_writes(p, first_super(o, p, lens, kernel_len(o), uuid), m),
        );
        if r2 is Err {
            (d2, r2)
        } else {
            (device::dev_sync(d2), Ok(()))
        }
    }
}

/// Making a filesystem on a device of the right size.
pub open spec fn made(d: Dev, o: MkfsOpts, uuid: [u8; 16], now: Ts) -> (
    Dev,
    Result<MkfsSummary, FsError>,
) {
    let bs = o.blocksize;
    let size = d.bytes.len() - d.bytes.len() % bs as nat;
    let lens = group_lengths(size / bs as int, MAX_AG_BYTES as int / bs as int);
    if size < MIN_SIZE {
        (d, Err(FsError::DeviceTooSmall(size as u64)))
    } else {
        match plan_of(lens[0], bs, journal_bytes(size, o.journal), kernel_len(o)) {
            Err(e) => (d, Err(e)),
            Ok(p) => {
                let (d1, r) = filled(d, o, p, lens, uuid, now);
                let sb = first_super(o, p, lens, kernel_len(o), uuid);
                match r {
                    Err(e) => (d1, Err(e)),
                    Ok(_) => (
                        d1,
                        Ok(
                            MkfsSummary {
                                size: size as u64,
                                blocks: (size / bs as int) as u64,
                                ags: lens.len() as u32,
                                journal_blocks: p.journal as u64,
                                root_ino: sb.root_ino,
                                free_blocks: sb.free_blocks,
                                kernel_offset: sb.kernel_offset,
                            },
                        ),
                    ),
                }
            },
        }
    }
}

/// Making a filesystem with this identity at this time.
pub open spec fn formatted(d: Dev, o: MkfsOpts, uuid: [u8; 16], now: Ts) -> (
    Dev,
    Result<MkfsSummary, FsError>,
) {
    match opts_flaw(o) {
        Some(e) => (d, Err(e)),
        None => made(sized(d, o), o, uuid, now),
    }
}

// --- building the contents ----------------------------------------------------

/// Build the root table of the first group.
fn build_first_table(p: &Plan, bs: u32) -> (r: Vec<u8>)
    requires
        p.wf(bs),
        2048 <= bs <= 0x8000_0000,
        p.length * bs <= usize::MAX,
    ensures
        r@ == first_table(*p, bs),
        r@.len() == p.table * bs,
{
    proof {
        resize::lemma_table_small(p.length, bs);
        lemma_part(p.table as int, p.length as int, bs as int);
    }
    let mut t = zero_vec(p.table as usize * bs as usize);
    assert(t@ =~= fmt::zeros((p.table * bs) as nat));
    fill_cells(&mut t, 0, p.head as u64 + 1, CELL_RSVD);
    cell_set(&mut t, p.head as u64 + 1, CELL_REFINED);
    cell_set(&mut t, p.cells as u64 - 1, CELL_RSVD);
    // root table ref for the inode cell -> record 0 of the first arena block
    let off = rt_ref_off(p.cells as u64, p.head as u64 + 1) as usize;
    let ghost before = t@;
    put_u32(&mut t, off, p.head * CELL_BLOCKS);
    put_u16(&mut t, off + 4, 0);
    assert(t@ =~= fmt::splice(before, off as int, roottable::ref_bytes((p.arena(), 0))));
    t
}

/// A part of a length in blocks is no longer in bytes.
proof fn lemma_part(a: int, b: int, bs: int)
    requires
        0 <= a <= b,
        bs >= 0,
    ensures
        0 <= a * bs <= b * bs,
{
    assert(0 <= a * bs <= b * bs) by (nonlinear_arith)
        requires
            0 <= a <= b,
            bs >= 0,
    ;
}

fn build_chain_record(r: (u32, u16)) -> (rec: Vec<u8>)
    ensures
        rec@ == chain_record(r),
        rec@.len() == 128,
{
    let mut rec = zero_vec(REC_SIZE);
    assert(rec@ =~= fmt::zeros(128));
    rec_state_set(&mut rec, 0, CELL_REFINED);
    rec_ref_set(&mut rec, 0, r);
    rec
}

/// Build the first table block of the arena.
fn build_arena(p: &Plan, bs: u32) -> (r: Vec<u8>)
    requires
        p.wf(bs),
        2048 <= bs <= 0x8000_0000,
    ensures
        r@ == arena_block(*p, bs),
        r@.len() == bs,
{
    let arena = p.head * CELL_BLOCKS;
    let mut b = zero_vec(bs as usize);
    assert(b@ =~= fmt::zeros(bs as nat));
    put_bytes(&mut b, 0, &ALLOC_MAGIC);
    put_u32(&mut b, 16, 7);  // records 0..2 used
    let r0 = build_chain_record((arena, 1));
    put_bytes(&mut b, REC_SIZE, &r0);
    let r1 = build_chain_record((arena, 2));
    put_bytes(&mut b, 2 * REC_SIZE, &r1);
    let mut r2 = zero_vec(REC_SIZE);
    assert(r2@ =~= fmt::zeros(128));
    rec_state_set(&mut r2, 0, CELL_FULL);  // root inode
    if p.kernel > 0 {
        rec_state_set(&mut r2, 1, CELL_FULL);  // kernel inode
    }
    put_bytes(&mut b, 3 * REC_SIZE, &r2);
    seal(&mut b);
    b
}

/// Build the root directory.
#[verifier::rlimit(40)]
fn build_root(now: Ts, root_ino: u64, kernel: bool) -> (r: Inode)
    requires
        root_ino < u64::MAX,
    ensures
        r == root_inode(now, root_ino, kernel),
{
    let mut root = Inode {
        format: FMT_EMPTY,
        mode: 0o040755,
        nlink: 2,
        atime: now,
        mtime: now,
        ctime: now,
        btime: now,
        ..Inode::default()
    };
    if kernel {
        root.format = FMT_EMBED;
        let e = DirEntry { ino: root_ino + 1, ftype: DT_FILE, name: "kernel.bin".to_owned() };
        proof {
            reveal_strlit("kernel.bin");
            reveal_with_fuel(utf16::encode_utf16, 12);
            assert(utf16::encode_utf16(e.name@).len() == 10);
            lemma_no_entries();
        }
        let _ = dir_append(&mut root.payload, &e);
    }
    proof {
        let want = root_inode(now, root_ino, kernel);
        assert(want.payload@ == root.payload@);
        assert(want.payload =~= root.payload);
    }
    root
}

/// An empty payload holds no entry.
proof fn lemma_no_entries()
    ensures
        dirent::entries_len(dirent::dir_entries_of(fmt::zeros(128))) == 0,
{
    assert(!dirent::entry_ok(fmt::zeros(128), 0));
}

/// Build the kernel's inode.
fn build_kernel_inode(now: Ts, p: &Plan, len: u64) -> (r: Inode)
    ensures
        r == kernel_inode(now, *p, len),
{
    let mut ki = Inode {
        format: FMT_EXTENT,
        mode: 0o100644,
        nlink: 1,
        flags: INODE_FLAG_IMMUTABLE,
        size: len,
        nblocks: p.kernel as u64,
        atime: now,
        mtime: now,
        ctime: now,
        btime: now,
        ..Inode::default()
    };
    let start = if p.kernel > 0 { p.kernel_at } else { 0u32 };
    let e = Extent { file_block: 0, blk: blk_addr(0, start), blocks: p.kernel };
    let _ = extents_store(&mut ki.payload, &[e]);
    proof {
        let want = kernel_inode(now, *p, len);
        assert([e]@ =~= seq![e]);
        assert(want.payload@ == ki.payload@);
        assert(want.payload =~= ki.payload);
    }
    ki
}

// --- writing ------------------------------------------------------------------

/// What a list of writes says.
pub open spec fn writes(v: Seq<(u64, Vec<u8>)>) -> Seq<(Result<u64, FsError>, Seq<u8>)> {
    v.map_values(|x: (u64, Vec<u8>)| (Ok::<u64, FsError>(x.0), x.1@))
}

fn put(v: &mut Vec<(u64, Vec<u8>)>, off: u64, data: Vec<u8>)
    ensures
        writes(final(v)@) == writes(old(v)@).push(at(off as int, data@)),
{
    v.push((off, data));
    assert(writes(v@) =~= writes(old(v)@).push(at(off as int, data@)));
}

/// Do the writes in order.
fn write_all(dev: &mut Device, v: &Vec<(u64, Vec<u8>)>) -> (r: Result<(), FsError>)
    requires
        old(dev).wf(),
    ensures
        final(dev).wf(),
        (final(dev)@, r) == device::dev_writes(old(dev)@, writes(v@)),
{
    let ghost all = writes(v@);
    let mut k: usize = 0;
    assert(all.skip(0) =~= all);
    while k < v.len()
        invariant
            k <= v@.len(),
            dev.wf(),
            all == writes(v@),
            device::dev_writes(old(dev)@, all) == device::dev_writes(dev@, all.skip(k as int)),
        decreases v@.len() - k,
    {
        proof {
            assert(all.skip(k as int)[0] == all[k as int]);
            assert(all.skip(k as int).skip(1) =~= all.skip(k + 1));
        }
        dev.pwrite(&v[k].1, v[k].0)?;
        k = k + 1;
    }
    Ok(())
}

/// The writes to the first group.
#[verifier::rlimit(40)]
fn write_first(p: &Plan, bs: u32, isz: u16, kernel: &Option<Vec<u8>>, now: Ts) -> (r: Vec<
    (u64, Vec<u8>),
>)
    requires
        p.wf(bs),
        2048 <= bs <= 0x8000_0000,
        256 <= isz <= bs,
        bs / isz as u32 <= 16,
        p.length * bs <= usize::MAX,
        kernel matches Some(k) ==> p.kernel == fmt::ceil_div(k@.len() as int, bs as int),
    ensures
        writes(r@) == first_writes(
            *p,
            bs,
            isz,
            match kernel {
                Some(k) => Some(k@),
                None => None,
            },
            now,
        ),
{
    proof {
        lemma_part(p.next as int, p.length as int, bs as int);
        lemma_part(p.arena() as int, p.length as int, bs as int);
        lemma_part(p.inodes() as int + 1, p.length as int, bs as int);
        lemma_part(p.kernel_at as int, p.length as int, bs as int);
        lemma_part(p.kernel as int, p.length as int, bs as int);
        assert((p.inodes() + 1) * bs == p.inodes() * bs + bs) by (nonlinear_arith);
    }
    let slots = bs / isz as u32;
    let arena = p.head * CELL_BLOCKS;
    let inodes = (p.head + 1) * CELL_BLOCKS;
    assert(inodes * slots <= 0xfff_ffff * 16) by (nonlinear_arith)
        requires
            inodes <= 0xfff_ffff,
            slots <= 16,
    ;
    let root_ino = ino_addr(0, inodes * slots);
    let mut v: Vec<(u64, Vec<u8>)> = Vec::new();
    assert(writes(v@) =~= Seq::empty());
    put(&mut v, arena as u64 * bs as u64, build_arena(p, bs));
    put(&mut v, 0, zero_vec(p.next as usize * bs as usize));
    let hdr = AgHeader {
        ag_num: 0,
        gen: 1,
        length: p.length,
        free_blocks: p.free,
        rsvd_blocks: p.length - p.free - 1,
        full_blocks: 1,  // the slot block itself
        alloc_root: 2,
        ino_hint: inodes,
        data_hint: arena,
        tbl_arena: arena,
    };
    put(&mut v, bs as u64, header_buf(&hdr, bs));
    put(&mut v, 2 * bs as u64, build_first_table(p, bs));
    put(&mut v, inodes as u64 * bs as u64, zero_vec(bs as usize));
    let ghost head = writes(v@);
    assert(fmt::zeros((p.next * bs) as nat) =~= head[1].1);
    assert(fmt::zeros(bs as nat) =~= head[4].1);
    assert(head =~= seq![
        at(p.arena() * bs, arena_block(*p, bs)),
        at(0, fmt::zeros((p.next * bs) as nat)),
        at(bs as int, fs::header_block(first_header(*p), bs)),
        at(2 * bs, first_table(*p, bs)),
        at(p.inodes() * bs, fmt::zeros(bs as nat)),
    ]);
    match kernel {
        Some(k) => {
            // kernel data, zero-padding the tail block
            let n = p.kernel as usize * bs as usize;
            proof {
                fmt::lemma_ceil_div(k@.len() as int, bs as int);
            }
            let mut padded = zero_vec(n);
            put_bytes(&mut padded, 0, k);
            assert(padded@ =~= k@ + fmt::zeros((n - k@.len()) as nat));
            put(&mut v, p.kernel_at as u64 * bs as u64, padded);
            // immutable kernel.bin inode in slot 1
            let ki = build_kernel_inode(now, p, k.len() as u64);
            let kb = ki.to_bytes();
            put(&mut v, inodes as u64 * bs as u64 + isz as u64, vstd::slice::slice_to_vec(&kb));
            assert(writes(v@) =~= head + kernel_writes(*p, bs, isz, k@, now));
        },
        None => {
            assert(writes(v@) =~= head + Seq::empty());
        },
    }
    let ghost mid = writes(v@);
    let root = build_root(now, root_ino, kernel.is_some());
    let rb = root.to_bytes();
    put(&mut v, inodes as u64 * bs as u64, vstd::slice::slice_to_vec(&rb));
    assert(writes(v@) =~= mid + seq![at(p.inodes() * bs, inode::inode_bytes(root))]);
    v
}

/// One more group: its writes, and its free blocks.
#[verifier::rlimit(40)]
fn write_group(v: &mut Vec<(u64, Vec<u8>)>, lens: &Vec<u32>, bs: u32, i: usize, off: u64) -> (r: u64)
    requires
        1 <= i < lens@.len(),
        2048 <= bs <= 0x8000_0000,
        1024 <= lens@[i as int] <= 0x1000_0000,
        off == blocks_before(lens@, i as int) * bs,
        off + lens@[i as int] * bs <= usize::MAX,
    ensures
        writes(final(v)@) == writes(old(v)@) + group_writes(lens@, bs, i as int),
        r == resize::new_free(lens@[i as int], bs),
        r <= lens@[i as int],
{
    let len = lens[i];
    proof {
        resize::lemma_table_small(len, bs);
    }
    let (cells, _) = rt_geometry(len, bs);
    let used = 1 + rt_table_blocks(len, bs) as u64;
    proof {
        fmt::lemma_ceil_div(used as int, 256);
        lemma_part(used as int, len as int, bs as int);
        lemma_part(1, used as int, bs as int);
    }
    let (table, reserved) = build_table(len, bs, used);
    let free = (cells - reserved) * CELL_BLOCKS as u64;
    assert(free <= len);
    let head = div_up(used, CELL_BLOCKS as u64);
    let hdr = AgHeader {
        ag_num: i as u32,
        gen: 1,
        length: len,
        free_blocks: free as u32,
        rsvd_blocks: len - free as u32,
        full_blocks: 0,
        alloc_root: 1,
        ino_hint: 0,
        data_hint: (head * CELL_BLOCKS as u64) as u32,
        tbl_arena: 0,
    };
    assert(hdr == resize::new_header(i as u32, len, bs));
    let z = zero_vec(used as usize * bs as usize);
    assert(z@ =~= fmt::zeros((used * bs) as nat));
    put(v, off, z);
    put(v, off, header_buf(&hdr, bs));
    put(v, off + bs as u64, table);
    assert(writes(v@) =~= writes(old(v)@) + group_writes(lens@, bs, i as int));
    free
}

/// Later groups keep no more free than they are long.
proof fn lemma_free_bound(lens: Seq<u32>, bs: u32, n: int)
    requires
        1 <= n <= lens.len(),
        forall|i: int|
            1 <= i < lens.len() ==> 0 <= resize::new_free(#[trigger] lens[i], bs) <= lens[i],
    ensures
        0 <= later_free(lens, bs, n) <= blocks_before(lens, n) - lens[0],
    decreases n,
{
    reveal_with_fuel(blocks_before, 2);
    if n > 1 {
        lemma_free_bound(lens, bs, n - 1);
        let x = lens[n - 1];
        assert(0 <= resize::new_free(x, bs) <= x);
    }
}

/// The map entry of group `i`.
fn group_entry(i: usize, len: u32, off: u64) -> (r: AgEntry)
    ensures
        r@ == resize::whole_group(
            if i == 0 {
                3
            } else {
                1
            },
            len,
            off,
        ),
{
    let flags = if i == 0 { AGF_PRESENT | AGF_IMMOVABLE } else { AGF_PRESENT };
    assert(1u16 | 2u16 == 3u16) by (bit_vector);
    let mut segs: Vec<AgSegment> = Vec::new();
    segs.push(AgSegment { ag_block: 0, blocks: len, dev_offset: off });
    let e = AgEntry { flags, length: len, segs };
    assert(e@.segs =~= seq![AgSegment { ag_block: 0, blocks: len, dev_offset: off }]);
    e
}

fn label_array(label: &String) -> (r: [u16; 16])
    ensures
        r == disk_name(label_units(label@)),
        forall|i: int|
            0 <= i < 16 ==> #[trigger] r@[i] == if i < utf16::encode_utf16(label@).len() {
                utf16::encode_utf16(label@)[i]
            } else {
                0u16
            },
{
    let units = utf16_units(label.as_str());
    let mut a = [0u16; 16];
    let ghost want = label_units(label@);
    let mut i: usize = 0;
    while i < 16 && i < units.len()
        invariant
            i <= 16,
            i <= units@.len(),
            units@ == utf16::encode_utf16(label@),
            want == label_units(label@),
            forall|k: int| 0 <= k < i ==> a@[k] == want[k],
            forall|k: int| i <= k < 16 ==> a@[k] == 0,
        decreases 16 - i,
    {
        a[i] = units[i];
        i = i + 1;
    }
    proof {
        assert(a@ =~= want);
        assert(disk_name(want)@ == a@);
        assert(disk_name(want) =~= a);
    }
    a
}

/// The split of a device of `blocks` blocks that holds a first group laid out
/// by `p`.
spec fn split_ok(lens: Seq<u32>, p: Plan, blocks: int) -> bool {
    &&& 1 <= lens.len()
    &&& lens[0] == p.length
    &&& blocks_before(lens, lens.len() as int) == blocks
    &&& forall|i: int| 0 <= i < lens.len() ==> 1024 <= #[trigger] lens[i] <= 0x1000_0000 || i == 0
}

/// Write all groups; returns their free blocks together.
#[verifier::rlimit(30)]
fn write_groups(
    dev: &mut Device,
    opts: &MkfsOpts,
    p: &Plan,
    lens: &Vec<u32>,
    now: Ts,
    map: &mut AgMap,
) -> (r: Result<u64, FsError>)
    requires
        old(dev).wf(),
        p.wf(opts.blocksize),
        opts_flaw(*opts) is None,
        split_ok(lens@, *p, old(dev)@.bytes.len() as int / opts.blocksize as int),
        kernel_of(*opts) matches Some(k) ==> p.kernel == fmt::ceil_div(
            k.len() as int,
            opts.blocksize as int,
        ),
        old(map).entries@.len() == 0,
        old(map).gen == 1,
    ensures
        final(dev).wf(),
        ({
            let (d1, r1) = device::dev_writes(
                old(dev)@,
                first_writes(*p, opts.blocksize, opts.inodesize, kernel_of(*opts), now)
                    + later_writes(lens@, opts.blocksize, lens@.len() as int),
            );
            &&& final(dev)@ == d1
            &&& match r {
                Ok(free) => r1 is Ok && final(map)@ == first_map(lens@, opts.blocksize) && free
                    == p.free + later_free(lens@, opts.blocksize, lens@.len() as int) && p.free
                    <= free < blocks_before(lens@, lens@.len() as int),
                Err(e) => r1 == Err::<(), FsError>(e),
            }
        }),
{
    let bs = opts.blocksize;
    let ghost size = dev@.bytes.len() as int;
    let ghost total = blocks_before(lens@, lens@.len() as int);
    proof {
        superblock::lemma_blocksize_bound(bs);
        assert(total * bs <= size) by (nonlinear_arith)
            requires
                total == size / (bs as int),
                bs > 0,
        ;
        assert(size <= usize::MAX) by {
            assert(dev.data.len() == size);
        }
        reveal_with_fuel(blocks_before, 2);
        lemma_before_monotonic(lens@, 1, lens@.len() as int);
        lemma_part(p.length as int, total, bs as int);
    }
    let mut v = write_first(p, bs, opts.inodesize, &opts.kernel, now);
    let ghost first = writes(v@);
    map.entries.push(group_entry(0, p.length, 0));
    assert(first + later_writes(lens@, bs, 1) =~= first);
    let mut free = p.free as u64;
    let mut off = p.length as u64 * bs as u64;
    let mut i: usize = 1;
    while i < lens.len()
        invariant
            1 <= i <= lens@.len(),
            opts_flaw(*opts) is None,
            p.wf(bs),
            bs == opts.blocksize,
            2048 <= bs <= 0x8000_0000,
            total == blocks_before(lens@, lens@.len() as int),
            total * bs <= usize::MAX,
            split_ok(lens@, *p, total),
            writes(v@) == first + later_writes(lens@, bs, i as int),
            off == blocks_before(lens@, i as int) * bs,
            free == p.free + later_free(lens@, bs, i as int),
            p.free <= free < blocks_before(lens@, i as int),
            map.gen == 1,
            map.entries@.len() == i,
            forall|k: int|
                0 <= k < i ==> (#[trigger] map.entries@[k])@ == first_map(lens@, bs).entries[k],
        decreases lens@.len() - i,
    {
        proof {
            lemma_before_monotonic(lens@, i + 1, lens@.len() as int);
            assert(lens@[i as int] >= 1024);
            let a = blocks_before(lens@, i as int);
            let n = lens@[i as int] as int;
            assert(a * bs + n * bs == (a + n) * bs) by (nonlinear_arith);
            lemma_part(a + n, total, bs as int);
            assert(total <= total * bs) by (nonlinear_arith)
                requires
                    total >= 0,
                    bs >= 1,
            ;
        }
        let ghost before = writes(v@);
        let f = write_group(&mut v, lens, bs, i, off);
        proof {
            assert(later_writes(lens@, bs, i + 1) == later_writes(lens@, bs, i as int)
                + group_writes(lens@, bs, i as int));
            assert(writes(v@) =~= first + later_writes(lens@, bs, i + 1));
        }
        map.entries.push(group_entry(i, lens[i], off));
        free = free + f;
        off = off + lens[i] as u64 * bs as u64;
        i = i + 1;
    }
    proof {
        assert(map@.entries =~= first_map(lens@, bs).entries);
    }
    write_all(dev, &v)?;
    Ok(free)
}

/// Write the filesystem; returns its superblock.
#[verifier::rlimit(30)]
fn fill(dev: &mut Device, opts: &MkfsOpts, p: &Plan, lens: &Vec<u32>, uuid: [u8; 16], now: Ts) -> (r:
    Result<Superblock, FsError>)
    requires
        old(dev).wf(),
        p.wf(opts.blocksize),
        opts_flaw(*opts) is None,
        split_ok(lens@, *p, old(dev)@.bytes.len() as int / opts.blocksize as int),
        p.kernel == fmt::ceil_div(kernel_len(*opts), opts.blocksize as int),
    ensures
        final(dev).wf(),
        ({
            let (d1, r1) = filled(old(dev)@, *opts, *p, lens@, uuid, now);
            &&& final(dev)@ == d1
            &&& match r {
                Ok(sb) => r1 is Ok && sb == first_super(
                    *opts,
                    *p,
                    lens@,
                    kernel_len(*opts),
                    uuid,
                ),
                Err(e) => r1 == Err::<(), FsError>(e),
            }
        }),
{
    let bs = opts.blocksize;
    let ghost size = dev@.bytes.len() as int;
    let ghost total = blocks_before(lens@, lens@.len() as int);
    proof {
        reveal(filled);
        reveal(first_super);
        superblock::lemma_blocksize_bound(bs);
        assert(total * bs <= size) by (nonlinear_arith)
            requires
                total == size / (bs as int),
                bs > 0,
        ;
        assert(dev.data.len() == size);
        reveal_with_fuel(blocks_before, 2);
        lemma_before_monotonic(lens@, 1, lens@.len() as int);
        lemma_part(p.length as int, total, bs as int);
        lemma_part(p.map_at as int + 2, p.length as int, bs as int);
        lemma_part(p.length as int - 1, p.length as int, bs as int);
        lemma_part(p.journal_at as int, p.length as int, bs as int);
        lemma_part(p.journal as int, p.length as int, bs as int);
        lemma_part(p.kernel_at as int, p.length as int, bs as int);
        lemma_part(p.kernel_at as int + p.kernel as int, p.length as int, bs as int);
        assert((p.kernel_at + p.kernel) * bs == p.kernel_at * bs + p.kernel * bs)
            by (nonlinear_arith);
        assert(total <= total * bs) by (nonlinear_arith)
            requires
                total >= 0,
                bs >= 1,
        ;
        fmt::lemma_ceil_div(kernel_len(*opts), bs as int);
        assert(p.map_at * bs <= p.length * bs) by {
            lemma_part(p.map_at as int, p.length as int, bs as int);
        }
        assert(p.length * bs <= 0x1000_0000 * 0x8000_0000) by (nonlinear_arith)
            requires
                p.length <= 0x1000_0000,
                bs <= 0x8000_0000,
        ;
    }
    let klen: u64 = match &opts.kernel {
        Some(k) => k.len() as u64,
        None => 0,
    };
    let mut map = AgMap { gen: 1, entries: Vec::new() };
    let ghost start = dev@;
    let free = write_groups(dev, opts, p, lens, now, &mut map)?;
    let ghost m = first_map(lens@, bs);
    let slots = bs / opts.inodesize as u32;
    let inodes = (p.head + 1) * CELL_BLOCKS;
    assert(inodes * slots <= 0xfff_ffff * 16) by (nonlinear_arith)
        requires
            inodes <= 0xfff_ffff,
            slots <= 16,
    ;
    let mut blocks: u64 = 0;
    let mut i: usize = 0;
    while i < lens.len()
        invariant
            i <= lens@.len(),
            total == blocks_before(lens@, lens@.len() as int),
            total <= u64::MAX,
            blocks == blocks_before(lens@, i as int),
        decreases lens@.len() - i,
    {
        proof {
            lemma_before_monotonic(lens@, i + 1, lens@.len() as int);
        }
        blocks = blocks + lens[i] as u64;
        i = i + 1;
    }
    let agmap_offset = p.map_at as u64 * bs as u64;
    let sb = Superblock {
        compat: 0,
        ro_compat: 0,
        incompat: 0,
        blocksize: bs,
        inodesize: opts.inodesize,
        uuid,
        disk_name: label_array(&opts.label),
        root_ino: ino_addr(0, inodes * slots),
        next_ag: lens.len() as u32,
        agmap_offset,
        agmap_length: AGMAP_BYTES,
        journal_start: blk_addr(0, p.journal_at),
        journal_length: p.journal as u64,
        kernel_offset: if p.kernel > 0 { p.kernel_at as u64 * bs as u64 } else { 0 },
        kernel_end: if p.kernel > 0 { p.kernel_at as u64 * bs as u64 + klen } else { 0 },
        free_blocks: free,
        rsvd_blocks: blocks - free - 1,
        full_blocks: 1,
        gen: 1,
        journal_seq: 1,
        journal_head: 0,
    };
    // AG map copies (identical at mkfs)
    let map_bytes = match map.to_bytes(AGMAP_BYTES as usize) {
        Ok(b) => b,
        Err(e) => return Err(FsError::AgMapCopy(e)),
    };
    let mut v: Vec<(u64, Vec<u8>)> = Vec::new();
    assert(writes(v@) =~= Seq::empty());
    let copy = vstd::slice::slice_to_vec(&map_bytes);
    put(&mut v, agmap_offset, copy);
    put(&mut v, agmap_offset + AGMAP_BYTES, map_bytes);
    // journal: zeroed = empty
    let z = zero_vec(p.journal as usize * bs as usize);
    assert(z@ =~= fmt::zeros((p.journal * bs) as nat));
    put(&mut v, p.journal_at as u64 * bs as u64, z);
    let sb_bytes = sb.to_bytes();
    put(&mut v, 0, vstd::slice::slice_to_vec(&sb_bytes));
    // backup superblock at the last block of AG 0
    put(&mut v, (p.length as u64 - 1) * bs as u64, vstd::slice::slice_to_vec(&sb_bytes));
    assert(sb == first_super(*opts, *p, lens@, kernel_len(*opts), uuid));
    assert(writes(v@) =~= last_writes(*p, sb, m));
    write_all(dev, &v)?;
    dev.sync();
    Ok(sb)
}

/// A power of two above 768 blocks per 64 GiB leaves 1024 of them.
pub proof fn lemma_max_blocks(bs: u32)
    requires
        superblock::is_pow2(bs as int),
        bs >= 2048,
    ensures
        32 <= MAX_AG_BYTES as int / bs as int <= 0x200_0000,
        MAX_AG_BYTES as int / bs as int > 768 ==> MAX_AG_BYTES as int / bs as int >= 1024,
{
    superblock::lemma_blocksize_bound(bs);
    let m = MAX_AG_BYTES as int;
    let q = m / bs as int;
    assert(q <= 0x200_0000) by (nonlinear_arith)
        requires
            q == m / (bs as int),
            m == 0x10_0000_0000,
            bs >= 2048,
    ;
    assert(32 <= q) by (nonlinear_arith)
        requires
            q == m / (bs as int),
            m == 0x10_0000_0000,
            2048 <= bs <= 0x8000_0000,
    ;
    if q > 768 {
        assert(bs < 0x800_0000) by (nonlinear_arith)
            requires
                q == m / (bs as int),
                q > 768,
                m == 0x10_0000_0000,
                bs > 0,
        ;
        superblock::lemma_pow2_below(bs);
        assert(q >= 1024) by (nonlinear_arith)
            requires
                q == m / (bs as int),
                m == 0x10_0000_0000,
                0 < bs <= 0x400_0000,
        ;
    }
}

/// Make a filesystem on a device of the right size.
fn make(dev: &mut Device, opts: &MkfsOpts, uuid: [u8; 16], now: Ts) -> (r: Result<
    MkfsSummary,
    FsError,
>)
    requires
        old(dev).wf(),
        opts_flaw(*opts) is None,
    ensures
        final(dev).wf(),
        (final(dev)@, r) == made(old(dev)@, *opts, uuid, now),
{
    let bs = opts.blocksize as u64;
    let rest = dev.size % bs;
    assert(rest <= dev.size) by (nonlinear_arith)
        requires
            rest == dev.size % bs,
            bs > 0,
    ;
    let size = dev.size - rest;
    if size < MIN_SIZE {
        return Err(FsError::DeviceTooSmall(size));
    }
    let total = size / bs;
    proof {
        lemma_max_blocks(opts.blocksize);
        superblock::lemma_blocksize_bound(opts.blocksize);
        let q = dev.size as int / bs as int;
        assert(size == bs * q) by (nonlinear_arith)
            requires
                size == dev.size - dev.size as int % (bs as int),
                q == dev.size as int / (bs as int),
                bs > 0,
        ;
        assert(total == q && q >= 1) by (nonlinear_arith)
            requires
                size == bs * q,
                total == size as int / (bs as int),
                size > 0,
                bs > 0,
        ;
        law_groups_cover_the_device(total as int, MAX_AG_BYTES as int / bs as int);
    }
    let lens = split_device(total, MAX_AG_BYTES / bs);
    let want = match opts.journal {
        Some(j) => j,
        None => {
            let part = size / 16;
            if part < 0x40_0000 {
                0x40_0000
            } else if part > 0x800_0000 {
                0x800_0000
            } else {
                part
            }
        },
    };
    let klen: u64 = match &opts.kernel {
        Some(k) => k.len() as u64,
        None => 0,
    };
    let p = lay_out(lens[0], opts.blocksize, want, klen)?;
    let sb = fill(dev, opts, &p, &lens, uuid, now)?;
    Ok(
        MkfsSummary {
            size,
            blocks: total,
            ags: lens.len() as u32,
            journal_blocks: p.journal as u64,
            root_ino: sb.root_ino,
            free_blocks: sb.free_blocks,
            kernel_offset: sb.kernel_offset,
        },
    )
}

/// Make a filesystem on `dev` with the given identity, at the given time.
pub fn mkfs_with(dev: &mut Device, opts: &MkfsOpts, uuid: [u8; 16], now: Ts) -> (r: Result<
    MkfsSummary,
    FsError,
>)
    requires
        old(dev).wf(),
        opts.size matches Some(s) ==> s <= usize::MAX,
    ensures
        final(dev).wf(),
        (final(dev)@, r) == formatted(old(dev)@, *opts, uuid, now),
{
    if !is_power_of_two(opts.blocksize) || opts.blocksize < 2048 {
        return Err(FsError::MkfsBlocksize);
    }
    if !is_power_of_two(opts.inodesize as u32) || opts.inodesize < 256 || opts.inodesize as u32
        > opts.blocksize {
        return Err(FsError::MkfsInodesize);
    }
    if opts.blocksize / opts.inodesize as u32 > ALLOC_FANOUT {
        return Err(FsError::MkfsSlots);
    }
    match opts.size {
        Some(s) => {
            let bs = opts.blocksize as u64;
            let rest = s % bs;
            assert(rest <= s) by (nonlinear_arith)
                requires
                    rest == s % bs,
                    bs > 0,
            ;
            let n = s - rest;
            if n != dev.size {
                dev.set_len(n as usize);
            }
        },
        None => {},
    }
    assert(dev@ == sized(old(dev)@, *opts));
    make(dev, opts, uuid, now)
}

/// `Uuid::new_v4` and `as_bytes` of the uuid crate: sixteen random bytes, with
/// the version (4) in the upper half of byte 6 and the variant (binary 10) in
/// the upper two bits of byte 8. Nothing is claimed of the random bits.
#[verifier::external_body]
fn random_uuid() -> (r: [u8; 16])
    ensures
        r@[6] / 16 == 4,
        r@[8] / 64 == 2,
{
    *uuid::Uuid::new_v4().as_bytes()
}

/// Make a filesystem on `dev`, with a random identity, at the current time.
pub fn mkfs(dev: &mut Device, opts: &MkfsOpts) -> (r: Result<MkfsSummary, FsError>)
    requires
        old(dev).wf(),
        opts.size matches Some(s) ==> s <= usize::MAX,
    ensures
        final(dev).wf(),
        exists|uuid: [u8; 16], now: Ts|
            uuid@[6] / 16 == 4 && uuid@[8] / 64 == 2 && now.nsec < 1_000_000_000 && (
                final(dev)@,
                r,
            ) == #[trigger] formatted(old(dev)@, *opts, uuid, now),
{
    let uuid = random_uuid();
    let now = Ts::now();
    mkfs_with(dev, opts, uuid, now)
}

} // verus!
