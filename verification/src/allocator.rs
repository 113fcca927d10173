//! Refinement-tree allocator.
//!
//! Hierarchy at default sizes: a level-0 cell is 256 blocks (1 MiB), refined
//! by 16 into level-1 cells (16 blocks), refined by 16 into level-2 cells (one
//! block). States live in the root table of the group (level 0) and in
//! 128-byte records inside "5FSA" table blocks (levels 1 and 2). Table blocks
//! come from arena cells: free level-0 cells claimed as reserved.
//!
//! Granularity of an allocation of `n` blocks: up to 16, exactly `n` blocks;
//! 17 to 255, multiples of 16; from 256 on, whole level-0 cells. `free_extent`
//! finds the granularity again from the states, and coarsens: a record whose
//! children are all free again is released and the parent's state collapses.
//!
//! Inode blocks are ordinary single-block allocations; free slots are
//! recognized by being zeroed, and `ino_hint` points at the block in use for
//! new inodes.

pub use crate::record::{
    rec_all, rec_ref, rec_ref_set, rec_state, rec_state_set, recs_per_block, REC_SIZE,
};
use crate::error::FsError;
use crate::fmt::{
    blk_addr, blk_split, div_up, get_u32, ino_addr, magic_is, put_bytes, put_magic, put_u32,
    zero_vec, ALLOC_FANOUT, ALLOC_MAGIC, CELL_BLOCKS, CELL_FREE, CELL_FULL, CELL_REFINED,
    CELL_RSVD,
};
use crate::fs::{header_buf, Gofs};
use crate::header::{rt_geometry, AgHeader};
use crate::record::{count_bits, find_clear, find_run, find_state, rec_fill, with_bit, without_bit};
use crate::superblock::Superblock;
use crate::txn::Txn;
use crate::vol::Vol;
use vstd::prelude::*;

use crate::fmt;
use crate::fs;
use crate::header;
use crate::record;
use crate::roottable;
use crate::vol;

verus! {

/// What an allocation changes: the transaction, the header of the group and
/// the counters of the volume.
#[verifier::ext_equal]
pub struct St {
    pub t: Map<u64, Seq<u8>>,
    pub hdr: AgHeader,
    pub free: u64,
    pub rsvd: u64,
    pub full: u64,
}

/// What an operation on a volume changes before its commit: the transaction
/// and the counters of the volume.
#[verifier::ext_equal]
pub struct Pool {
    pub t: Map<u64, Seq<u8>>,
    pub free: u64,
    pub rsvd: u64,
    pub full: u64,
}

pub open spec fn pool_of(f: Gofs, t: Txn) -> Pool {
    Pool {
        t: t@,
        free: f.sb.free_blocks,
        rsvd: f.sb.rsvd_blocks,
        full: f.sb.full_blocks,
    }
}

pub open spec fn with_hdr(p: Pool, hdr: AgHeader) -> St {
    St { t: p.t, hdr, free: p.free, rsvd: p.rsvd, full: p.full }
}

pub open spec fn pool(s: St) -> Pool {
    Pool { t: s.t, free: s.free, rsvd: s.rsvd, full: s.full }
}

pub open spec fn st_of(f: Gofs, t: Txn, hdr: AgHeader) -> St {
    St {
        t: t@,
        hdr,
        free: f.sb.free_blocks,
        rsvd: f.sb.rsvd_blocks,
        full: f.sb.full_blocks,
    }
}

/// Nothing of the volume changed but the counters.
pub open spec fn only_counters(a: Gofs, b: Gofs) -> bool {
    &&& b.dev == a.dev
    &&& b.map == a.map
    &&& b.sb == (Superblock {
        free_blocks: b.sb.free_blocks,
        rsvd_blocks: b.sb.rsvd_blocks,
        full_blocks: b.sb.full_blocks,
        ..a.sb
    })
}

/// Level-0 cells of the group.
pub open spec fn cells_in(hdr: AgHeader) -> int {
    header::cell_count(hdr.length)
}

/// The first block of level-0 cell `c`.
pub open spec fn cell_start(c: int) -> int {
    c * CELL_BLOCKS
}

// --- counters -----------------------------------------------------------------

/// `n` free blocks become used ones.
pub open spec fn take(s: St, n: int) -> (St, Result<(), FsError>) {
    if s.hdr.free_blocks < n || s.hdr.full_blocks + n > u32::MAX || s.free < n || s.full + n
        > u64::MAX {
        (s, Err(FsError::Corrupt))
    } else {
        (
            St {
                hdr: AgHeader {
                    free_blocks: (s.hdr.free_blocks - n) as u32,
                    full_blocks: (s.hdr.full_blocks + n) as u32,
                    ..s.hdr
                },
                free: (s.free - n) as u64,
                full: (s.full + n) as u64,
                ..s
            },
            Ok(()),
        )
    }
}

/// `n` used blocks become free ones.
pub open spec fn give(s: St, n: int) -> (St, Result<(), FsError>) {
    if s.hdr.full_blocks < n || s.hdr.free_blocks + n > u32::MAX || s.full < n || s.free + n
        > u64::MAX {
        (s, Err(FsError::Corrupt))
    } else {
        (
            St {
                hdr: AgHeader {
                    free_blocks: (s.hdr.free_blocks + n) as u32,
                    full_blocks: (s.hdr.full_blocks - n) as u32,
                    ..s.hdr
                },
                free: (s.free + n) as u64,
                full: (s.full - n) as u64,
                ..s
            },
            Ok(()),
        )
    }
}

/// Storing the header under its next generation.
pub open spec fn header_to(s: St, bs: u32) -> (St, Result<(), FsError>) {
    if s.hdr.gen == u64::MAX {
        (s, Err(FsError::Corrupt))
    } else {
        let h = AgHeader { gen: (s.hdr.gen + 1) as u64, ..s.hdr };
        (
            St {
                t: s.t.insert(
                    fmt::addr_of(h.ag_num, fs::header_local(h.ag_num)),
                    fs::header_block(h, bs),
                ),
                hdr: h,
                ..s
            },
            Ok(()),
        )
    }
}

// --- records ------------------------------------------------------------------

/// Records of a table block that the 32-bit bitmap of used ones can name.
pub open spec fn usable_recs(bs: u32) -> int {
    if bs / 128 - 1 < 32 {
        bs / 128 - 1
    } else {
        32
    }
}

/// A table block with no record in use.
pub open spec fn fresh_table(bs: u32) -> Seq<u8> {
    fmt::splice(fmt::zeros(bs as nat), 0, ALLOC_MAGIC@)
}

/// The table block with record `idx` claimed and zeroed.
pub open spec fn claimed(b: Seq<u8>, idx: int) -> Seq<u8> {
    fmt::splice(
        fmt::splice(b, 16, fmt::be32(record::bit_set(fmt::u32_at(b, 16) as int, idx) as u32)),
        REC_SIZE * (1 + idx),
        fmt::zeros(REC_SIZE as nat),
    )
}

/// The table block with record `idx` released and zeroed.
pub open spec fn released(b: Seq<u8>, idx: int) -> Seq<u8> {
    fmt::splice(
        fmt::splice(b, 16, fmt::be32(record::bit_clear(fmt::u32_at(b, 16) as int, idx) as u32)),
        REC_SIZE * (1 + idx),
        fmt::zeros(REC_SIZE as nat),
    )
}

/// Block `b` of the arena as a table block: a block not yet used as one counts
/// as empty.
pub open spec fn arena_table(v: Vol, t: Map<u64, Seq<u8>>, ag: u32, b: u32) -> Result<
    Seq<u8>,
    FsError,
> {
    match vol::rd(v, t, fmt::addr_of(ag, b)) {
        Err(e) => Err(e),
        Ok(raw) => if fmt::has_magic(raw, ALLOC_MAGIC) {
            roottable::table_of(v, t, ag, b)
        } else {
            Ok(fresh_table(v.bs))
        },
    }
}

/// The first table block from `b` on, up to `end`, with a record to spare, and
/// that record's index.
pub open spec fn spare_rec(v: Vol, t: Map<u64, Seq<u8>>, ag: u32, b: int, end: int) -> Result<
    Option<(u32, Seq<u8>, int)>,
    FsError,
>
    decreases end - b,
{
    if b >= end {
        Ok(None)
    } else {
        match arena_table(v, t, ag, b as u32) {
            Err(e) => Err(e),
            Ok(buf) => {
                let used = fmt::u32_at(buf, 16) as int;
                if record::ones(used) >= usable_recs(v.bs) {
                    spare_rec(v, t, ag, b + 1, end)
                } else {
                    Ok(
                        Some(
                            (
                                b as u32,
                                buf,
                                record::first_clear(used, 0, usable_recs(v.bs))->Some_0,
                            ),
                        ),
                    )
                }
            },
        }
    }
}

/// Claiming a new arena cell and its first record.
pub open spec fn new_arena(v: Vol, s: St) -> (St, Result<(u32, u16), FsError>) {
    match roottable::first_cell(v, s.t, s.hdr, CELL_FREE, 0, cells_in(s.hdr)) {
        None => (s, Err(FsError::NoArena(s.hdr.ag_num))),
        Some(c) => if s.hdr.free_blocks < CELL_BLOCKS || s.hdr.rsvd_blocks + CELL_BLOCKS > u32::MAX
            || s.free < CELL_BLOCKS || s.rsvd + CELL_BLOCKS > u64::MAX {
            (s, Err(FsError::Corrupt))
        } else {
            let (t1, r) = roottable::cell_to(v, s.t, s.hdr, c, CELL_RSVD);
            match r {
                Err(e) => (St { t: t1, ..s }, Err(e)),
                Ok(_) => {
                    let arena = cell_start(c) as u32;
                    (
                        St {
                            t: roottable::table_to(
                                t1,
                                s.hdr.ag_num,
                                arena,
                                fmt::splice(fresh_table(v.bs), 16, fmt::be32(1)),
                            ),
                            hdr: AgHeader {
                                tbl_arena: arena,
                                free_blocks: (s.hdr.free_blocks - CELL_BLOCKS) as u32,
                                rsvd_blocks: (s.hdr.rsvd_blocks + CELL_BLOCKS) as u32,
                                ..s.hdr
                            },
                            free: (s.free - CELL_BLOCKS) as u64,
                            rsvd: (s.rsvd + CELL_BLOCKS) as u64,
                            ..s
                        },
                        Ok((arena, 0u16)),
                    )
                },
            }
        },
    }
}

/// Claiming a record: in the arena if it has one to spare, else in a new one.
pub open spec fn claim_rec(v: Vol, s: St) -> (St, Result<(u32, u16), FsError>) {
    if s.hdr.tbl_arena == 0 {
        new_arena(v, s)
    } else if s.hdr.tbl_arena + CELL_BLOCKS > u32::MAX {
        (s, Err(FsError::Corrupt))
    } else {
        match spare_rec(
            v,
            s.t,
            s.hdr.ag_num,
            s.hdr.tbl_arena as int,
            s.hdr.tbl_arena + CELL_BLOCKS,
        ) {
            Err(e) => (s, Err(e)),
            Ok(None) => new_arena(v, s),
            Ok(Some((b, buf, idx))) => (
                St {
                    t: roottable::table_to(s.t, s.hdr.ag_num, b, claimed(buf, idx)),
                    ..s
                },
                Ok((b, idx as u16)),
            ),
        }
    }
}

/// Releasing a record.
pub open spec fn release_rec(v: Vol, t: Map<u64, Seq<u8>>, ag: u32, r: (u32, u16)) -> (
    Map<u64, Seq<u8>>,
    Result<(), FsError>,
) {
    match roottable::table_of(v, t, ag, r.0) {
        Err(e) => (t, Err(e)),
        Ok(b) => if r.1 >= 32 || roottable::rec_off_of(r.1) + REC_SIZE > v.bs {
            (t, Err(FsError::Corrupt))
        } else {
            (roottable::table_to(t, ag, r.0, released(b, r.1 as int)), Ok(()))
        },
    }
}

// --- refinement ---------------------------------------------------------------

/// Refining a free level-0 cell. Its state is flipped first, so that a search
/// for a new arena does not pick it.
pub open spec fn refine0(v: Vol, s: St, c: int) -> (St, Result<(u32, u16), FsError>) {
    let (t1, r1) = roottable::cell_to(v, s.t, s.hdr, c, CELL_REFINED);
    match r1 {
        Err(e) => (St { t: t1, ..s }, Err(e)),
        Ok(_) => {
            let (s2, r2) = claim_rec(v, St { t: t1, ..s });
            match r2 {
                Err(e) => (s2, Err(e)),
                Ok(r) => {
                    let (t3, r3) = roottable::cell_ref_to(v, s2.t, s2.hdr, c, r);
                    match r3 {
                        Err(e) => (St { t: t3, ..s2 }, Err(e)),
                        Ok(_) => (St { t: t3, ..s2 }, Ok(r)),
                    }
                },
            }
        },
    }
}

/// Refining the free level-1 child `i` of the cell whose record is `l0`.
pub open spec fn refine1(v: Vol, s: St, l0: (u32, u16), i: int) -> (
    St,
    Result<(u32, u16), FsError>,
) {
    let (s1, r1) = claim_rec(v, s);
    match r1 {
        Err(e) => (s1, Err(e)),
        Ok(r) => match roottable::record_of(v, s1.t, s1.hdr.ag_num, l0) {
            Err(e) => (s1, Err(e)),
            Ok(rec) => {
                let rec2 = record::with_ref(fmt::cell_put(rec, i, CELL_REFINED), i, r);
                let (t2, r2) = roottable::record_to(v, s1.t, s1.hdr.ag_num, l0, rec2);
                match r2 {
                    Err(e) => (St { t: t2, ..s1 }, Err(e)),
                    Ok(_) => (St { t: t2, ..s1 }, Ok(r)),
                }
            },
        },
    }
}

// --- allocation ---------------------------------------------------------------

/// `k` whole cells in a row.
pub open spec fn alloc0(v: Vol, s: St, k: int) -> (St, Result<u64, FsError>) {
    match roottable::free_cells(v, s.t, s.hdr, k, 0, 0, cells_in(s.hdr)) {
        Err(e) => (s, Err(e)),
        Ok(None) => (s, Err(FsError::NoRoom { ag: s.hdr.ag_num, cells: k as u64 })),
        Ok(Some(c)) => {
            let (t1, r1) = roottable::cells_to(v, s.t, s.hdr, c, c + k, CELL_FULL);
            match r1 {
                Err(e) => (St { t: t1, ..s }, Err(e)),
                Ok(_) => {
                    let (s2, r2) = take(St { t: t1, ..s }, k * CELL_BLOCKS);
                    match r2 {
                        Err(e) => (s2, Err(e)),
                        Ok(_) => (s2, Ok(fmt::addr_of(s.hdr.ag_num, cell_start(c) as u32))),
                    }
                },
            }
        },
    }
}

/// The first refined cell from `c` on whose record has `m` free children in a
/// row: the cell, its record's reference, the record, and where the run is.
pub open spec fn room1(v: Vol, t: Map<u64, Seq<u8>>, hdr: AgHeader, m: int, c: int) -> Result<
    Option<(int, (u32, u16), Seq<u8>, int)>,
    FsError,
>
    decreases cells_in(hdr) - c,
{
    if c >= cells_in(hdr) {
        Ok(None)
    } else {
        match roottable::cell_of(v, t, hdr, c) {
            Err(e) => Err(e),
            Ok(st) => if st != CELL_REFINED {
                room1(v, t, hdr, m, c + 1)
            } else {
                match roottable::cell_ref(v, t, hdr, c) {
                    Err(e) => Err(e),
                    Ok(r) => match roottable::record_of(v, t, hdr.ag_num, r) {
                        Err(e) => Err(e),
                        Ok(rec) => match record::first_run(rec, m) {
                            Some(start) => Ok(Some((c, r, rec, start))),
                            None => room1(v, t, hdr, m, c + 1),
                        },
                    },
                }
            },
        }
    }
}

/// Marking children `lo` to `hi` of a record used, `n` blocks in all.
pub open spec fn mark(
    v: Vol,
    s: St,
    r: (u32, u16),
    rec: Seq<u8>,
    lo: int,
    hi: int,
    n: int,
    blk: int,
) -> (St, Result<u64, FsError>) {
    let (t1, r1) = roottable::record_to(
        v,
        s.t,
        s.hdr.ag_num,
        r,
        record::with_states(rec, lo, hi, CELL_FULL),
    );
    match r1 {
        Err(e) => (St { t: t1, ..s }, Err(e)),
        Ok(_) => {
            let (s2, r2) = take(St { t: t1, ..s }, n);
            match r2 {
                Err(e) => (s2, Err(e)),
                Ok(_) => (s2, Ok(fmt::addr_of(s.hdr.ag_num, blk as u32))),
            }
        },
    }
}

/// `m` level-1 cells in a row inside one level-0 cell: in a cell already
/// refined where there is room, else in a fresh one.
pub open spec fn alloc1(v: Vol, s: St, m: int) -> (St, Result<u64, FsError>) {
    match room1(v, s.t, s.hdr, m, 0) {
        Err(e) => (s, Err(e)),
        Ok(Some((c, r, rec, start))) => mark(
            v,
            s,
            r,
            rec,
            start,
            start + m,
            m * ALLOC_FANOUT,
            cell_start(c) + start * ALLOC_FANOUT,
        ),
        Ok(None) => match roottable::first_cell(v, s.t, s.hdr, CELL_FREE, 0, cells_in(s.hdr)) {
            None => (s, Err(FsError::OutOfSpace(s.hdr.ag_num))),
            Some(c) => {
                let (s1, r1) = refine0(v, s, c);
                match r1 {
                    Err(e) => (s1, Err(e)),
                    Ok(r) => match roottable::record_of(v, s1.t, s1.hdr.ag_num, r) {
                        Err(e) => (s1, Err(e)),
                        Ok(rec) => mark(v, s1, r, rec, 0, m, m * ALLOC_FANOUT, cell_start(c)),
                    },
                }
            },
        },
    }
}

/// The first refined level-1 child from `i` on of record `l0rec` that has `n`
/// free blocks in a row.
pub open spec fn room2_in(
    v: Vol,
    t: Map<u64, Seq<u8>>,
    ag: u32,
    l0rec: Seq<u8>,
    n: int,
    i: int,
) -> Result<Option<(int, (u32, u16), Seq<u8>, int)>, FsError>
    decreases ALLOC_FANOUT - i,
{
    if i >= ALLOC_FANOUT {
        Ok(None)
    } else if fmt::cell_at(l0rec, i) != CELL_REFINED {
        room2_in(v, t, ag, l0rec, n, i + 1)
    } else {
        let l1 = record::ref_of(l0rec, i);
        match roottable::record_of(v, t, ag, l1) {
            Err(e) => Err(e),
            Ok(rec) => match record::first_run(rec, n) {
                Some(start) => Ok(Some((i, l1, rec, start))),
                None => room2_in(v, t, ag, l0rec, n, i + 1),
            },
        }
    }
}

/// The first level-2 record from cell `c` on with `n` free blocks in a row:
/// the run's first block, the record's reference, the record and the run.
pub open spec fn room2(v: Vol, t: Map<u64, Seq<u8>>, hdr: AgHeader, n: int, c: int) -> Result<
    Option<(int, (u32, u16), Seq<u8>, int)>,
    FsError,
>
    decreases cells_in(hdr) - c,
{
    if c >= cells_in(hdr) {
        Ok(None)
    } else {
        match roottable::cell_of(v, t, hdr, c) {
            Err(e) => Err(e),
            Ok(st) => if st != CELL_REFINED {
                room2(v, t, hdr, n, c + 1)
            } else {
                match roottable::cell_ref(v, t, hdr, c) {
                    Err(e) => Err(e),
                    Ok(l0) => match roottable::record_of(v, t, hdr.ag_num, l0) {
                        Err(e) => Err(e),
                        Ok(l0rec) => match room2_in(v, t, hdr.ag_num, l0rec, n, 0) {
                            Err(e) => Err(e),
                            Ok(Some((i, l1, rec, start))) => Ok(
                                Some((cell_start(c) + i * ALLOC_FANOUT + start, l1, rec, start)),
                            ),
                            Ok(None) => room2(v, t, hdr, n, c + 1),
                        },
                    },
                }
            },
        }
    }
}

/// The first refined cell from `c` on with a free child: the cell, its
/// record's reference and the child.
pub open spec fn spare1(v: Vol, t: Map<u64, Seq<u8>>, hdr: AgHeader, c: int) -> Result<
    Option<(int, (u32, u16), int)>,
    FsError,
>
    decreases cells_in(hdr) - c,
{
    if c >= cells_in(hdr) {
        Ok(None)
    } else {
        match roottable::cell_of(v, t, hdr, c) {
            Err(e) => Err(e),
            Ok(st) => if st != CELL_REFINED {
                spare1(v, t, hdr, c + 1)
            } else {
                match roottable::cell_ref(v, t, hdr, c) {
                    Err(e) => Err(e),
                    Ok(l0) => match roottable::record_of(v, t, hdr.ag_num, l0) {
                        Err(e) => Err(e),
                        Ok(l0rec) => match record::first_in(l0rec, CELL_FREE, 0) {
                            Some(i) => Ok(Some((c, l0, i))),
                            None => spare1(v, t, hdr, c + 1),
                        },
                    },
                }
            },
        }
    }
}

/// Refining child `i` of record `l0` and taking its first `n` blocks.
pub open spec fn refine_and_mark(v: Vol, s: St, l0: (u32, u16), i: int, n: int, blk: int) -> (
    St,
    Result<u64, FsError>,
) {
    let (s1, r1) = refine1(v, s, l0, i);
    match r1 {
        Err(e) => (s1, Err(e)),
        Ok(l1) => match roottable::record_of(v, s1.t, s1.hdr.ag_num, l1) {
            Err(e) => (s1, Err(e)),
            Ok(rec) => mark(v, s1, l1, rec, 0, n, n, blk),
        },
    }
}

/// `n` (up to 16) single blocks in a row inside one level-1 cell: where there
/// is room in a level-1 cell already refined; else in a free child of a
/// refined level-0 cell; else in a fresh level-0 cell.
pub open spec fn alloc2(v: Vol, s: St, n: int) -> (St, Result<u64, FsError>) {
    match room2(v, s.t, s.hdr, n, 0) {
        Err(e) => (s, Err(e)),
        Ok(Some((blk, l1, rec, start))) => mark(v, s, l1, rec, start, start + n, n, blk),
        Ok(None) => match spare1(v, s.t, s.hdr, 0) {
            Err(e) => (s, Err(e)),
            Ok(Some((c, l0, i))) => refine_and_mark(
                v,
                s,
                l0,
                i,
                n,
                cell_start(c) + i * ALLOC_FANOUT,
            ),
            Ok(None) => match roottable::first_cell(
                v,
                s.t,
                s.hdr,
                CELL_FREE,
                0,
                cells_in(s.hdr),
            ) {
                None => (s, Err(FsError::OutOfSpace(s.hdr.ag_num))),
                Some(c) => {
                    let (s1, r1) = refine0(v, s, c);
                    match r1 {
                        Err(e) => (s1, Err(e)),
                        Ok(l0) => refine_and_mark(v, s1, l0, 0, n, cell_start(c)),
                    }
                },
            },
        },
    }
}

/// The allocation of `n` blocks, at the granularity that `n` calls for.
pub open spec fn alloc_some(v: Vol, s: St, n: int) -> (St, Result<u64, FsError>) {
    if n >= CELL_BLOCKS {
        alloc0(v, s, fmt::ceil_div(n, CELL_BLOCKS as int))
    } else if n > ALLOC_FANOUT {
        alloc1(v, s, fmt::ceil_div(n, ALLOC_FANOUT as int))
    } else {
        alloc2(v, s, n)
    }
}

/// The allocation of `n` blocks in group `ag`, its header read and stored.
#[verifier::opaque]
pub open spec fn allocated(v: Vol, p: Pool, ag: u32, n: int) -> (Pool, Result<u64, FsError>) {
    match fs::header_of(v, p.t, ag) {
        Err(e) => (p, Err(e)),
        Ok(hdr) => {
            let (s1, r1) = alloc_some(v, with_hdr(p, hdr), n);
            match r1 {
                Err(e) => (pool(s1), Err(e)),
                Ok(blk) => {
                    let (s2, r2) = header_to(s1, v.bs);
                    match r2 {
                        Err(e) => (pool(s2), Err(e)),
                        Ok(_) => (pool(s2), Ok(blk)),
                    }
                },
            }
        },
    }
}

// --- free and coarsen ---------------------------------------------------------

/// Collapsing level-0 cell `c` if all children of its record are free.
pub open spec fn coarsen0(v: Vol, s: St, ag: u32, c: int, l0: (u32, u16)) -> (
    St,
    Result<(), FsError>,
) {
    match roottable::record_of(v, s.t, ag, l0) {
        Err(e) => (s, Err(e)),
        Ok(rec) => if !record::all_in(rec, CELL_FREE) {
            (s, Ok(()))
        } else {
            let (t1, r1) = release_rec(v, s.t, ag, l0);
            match r1 {
                Err(e) => (St { t: t1, ..s }, Err(e)),
                Ok(_) => {
                    let (t2, r2) = roottable::cell_to(v, t1, s.hdr, c, CELL_FREE);
                    match r2 {
                        Err(e) => (St { t: t2, ..s }, Err(e)),
                        Ok(_) => {
                            let (t3, r3) = roottable::cell_ref_to(v, t2, s.hdr, c, (0u32, 0u16));
                            (St { t: t3, ..s }, r3)
                        },
                    }
                },
            }
        },
    }
}

/// Storing the record of a level-1 cell after one of its blocks became free:
/// if all are, the record goes and the child of `l0rec` collapses.
pub open spec fn coarsen1(
    v: Vol,
    t: Map<u64, Seq<u8>>,
    ag: u32,
    l0: (u32, u16),
    l0rec: Seq<u8>,
    i: int,
    l1: (u32, u16),
    l1rec: Seq<u8>,
) -> (Map<u64, Seq<u8>>, Result<(), FsError>) {
    if record::all_in(l1rec, CELL_FREE) {
        let (t1, r1) = release_rec(v, t, ag, l1);
        match r1 {
            Err(e) => (t1, Err(e)),
            Ok(_) => roottable::record_to(
                v,
                t1,
                ag,
                l0,
                record::with_ref(fmt::cell_put(l0rec, i, CELL_FREE), i, (0u32, 0u16)),
            ),
        }
    } else {
        roottable::record_to(v, t, ag, l1, l1rec)
    }
}

/// Freeing in child `i` of a refined level-0 cell with record `l0`: how many
/// blocks went.
pub open spec fn free_inside(
    v: Vol,
    s: St,
    ag: u32,
    local: u32,
    l0: (u32, u16),
    l0rec: Seq<u8>,
) -> (St, Result<int, FsError>) {
    let i = (local % CELL_BLOCKS / ALLOC_FANOUT) as int;
    let st = fmt::cell_at(l0rec, i);
    if st == CELL_FULL {
        if local % ALLOC_FANOUT != 0 {
            (s, Err(FsError::MisalignedSubcell))
        } else {
            let (t1, r1) = roottable::record_to(
                v,
                s.t,
                ag,
                l0,
                fmt::cell_put(l0rec, i, CELL_FREE),
            );
            match r1 {
                Err(e) => (St { t: t1, ..s }, Err(e)),
                Ok(_) => {
                    let (s2, r2) = give(St { t: t1, ..s }, ALLOC_FANOUT as int);
                    match r2 {
                        Err(e) => (s2, Err(e)),
                        Ok(_) => (s2, Ok(ALLOC_FANOUT as int)),
                    }
                },
            }
        }
    } else if st == CELL_REFINED {
        let l1 = record::ref_of(l0rec, i);
        match roottable::record_of(v, s.t, ag, l1) {
            Err(e) => (s, Err(e)),
            Ok(l1rec) => {
                let j = (local % ALLOC_FANOUT) as int;
                if fmt::cell_at(l1rec, j) != CELL_FULL {
                    (s, Err(FsError::NotAllocated { ag, local }))
                } else {
                    let (s1, r1) = give(s, 1);
                    match r1 {
                        Err(e) => (s1, Err(e)),
                        Ok(_) => {
                            let (t2, r2) = coarsen1(
                                v,
                                s1.t,
                                ag,
                                l0,
                                l0rec,
                                i,
                                l1,
                                fmt::cell_put(l1rec, j, CELL_FREE),
                            );
                            match r2 {
                                Err(e) => (St { t: t2, ..s1 }, Err(e)),
                                Ok(_) => (St { t: t2, ..s1 }, Ok(1)),
                            }
                        },
                    }
                }
            },
        }
    } else {
        (s, Err(FsError::SubcellState(st)))
    }
}

/// Freeing what starts at block `local`: how many blocks went.
#[verifier::opaque]
pub open spec fn free_one(v: Vol, s: St, ag: u32, local: u32) -> (St, Result<int, FsError>) {
    let c = (local / CELL_BLOCKS) as int;
    match roottable::cell_of(v, s.t, s.hdr, c) {
        Err(e) => (s, Err(e)),
        Ok(st) => if st == CELL_FULL {
            if local % CELL_BLOCKS != 0 {
                (s, Err(FsError::MisalignedCell))
            } else {
                let (t1, r1) = roottable::cell_to(v, s.t, s.hdr, c, CELL_FREE);
                match r1 {
                    Err(e) => (St { t: t1, ..s }, Err(e)),
                    Ok(_) => {
                        let (s2, r2) = give(St { t: t1, ..s }, CELL_BLOCKS as int);
                        match r2 {
                            Err(e) => (s2, Err(e)),
                            Ok(_) => (s2, Ok(CELL_BLOCKS as int)),
                        }
                    },
                }
            }
        } else if st == CELL_REFINED {
            match roottable::cell_ref(v, s.t, s.hdr, c) {
                Err(e) => (s, Err(e)),
                Ok(l0) => match roottable::record_of(v, s.t, ag, l0) {
                    Err(e) => (s, Err(e)),
                    Ok(l0rec) => {
                        let (s1, r1) = free_inside(v, s, ag, local, l0, l0rec);
                        match r1 {
                            Err(e) => (s1, Err(e)),
                            Ok(k) => {
                                let (s2, r2) = coarsen0(v, s1, ag, c, l0);
                                match r2 {
                                    Err(e) => (s2, Err(e)),
                                    Ok(_) => (s2, Ok(k)),
                                }
                            },
                        }
                    },
                },
            }
        } else {
            (s, Err(FsError::CellState { ag, cell: c as u64, state: st }))
        },
    }
}

/// Freeing from block `local0 + cur` on until `n` blocks went.
pub open spec fn free_from(v: Vol, s: St, ag: u32, local0: u32, cur: int, n: int) -> (
    St,
    Result<(), FsError>,
)
    decreases
            if cur < n {
                n - cur
            } else {
                0
            },
{
    if cur >= n {
        (s, Ok(()))
    } else if local0 + cur > u32::MAX {
        (s, Err(FsError::Corrupt))
    } else {
        let (s1, r1) = free_one(v, s, ag, (local0 + cur) as u32);
        match r1 {
            Err(e) => (s1, Err(e)),
            Ok(k) => if k <= 0 {
                (s1, Ok(()))
            } else {
                free_from(v, s1, ag, local0, cur + k, n)
            },
        }
    }
}

/// Freeing `n` blocks from address `blk` on, the header read and stored.
#[verifier::opaque]
pub open spec fn freed(v: Vol, p: Pool, blk: u64, n: int) -> (Pool, Result<(), FsError>) {
    let ag = fmt::addr_ag(blk);
    match fs::header_of(v, p.t, ag) {
        Err(e) => (p, Err(e)),
        Ok(hdr) => {
            let (s1, r1) = free_from(v, with_hdr(p, hdr), ag, fmt::addr_local(blk), 0, n);
            match r1 {
                Err(e) => (pool(s1), Err(e)),
                Ok(_) => {
                    let (s2, r2) = header_to(s1, v.bs);
                    (pool(s2), r2)
                },
            }
        },
    }
}

// --- inode slots --------------------------------------------------------------

/// Slot `k` of an inode block is all zeros.
pub open spec fn slot_free(b: Seq<u8>, isz: int, k: int) -> bool {
    fmt::zero_bytes(b, k * isz, k * isz + isz)
}

/// The first free slot from `k` on.
pub open spec fn first_slot(b: Seq<u8>, isz: int, k: int, slots: int) -> Option<int>
    decreases slots - k,
{
    if k >= slots {
        None
    } else if slot_free(b, isz, k) {
        Some(k)
    } else {
        first_slot(b, isz, k + 1, slots)
    }
}

/// The number of slot `k` in block `local` of group `ag`.
pub open spec fn slot_ino(ag: u32, local: u32, slots: int, k: int) -> Result<u64, FsError> {
    if local * slots + k > u32::MAX {
        Err(FsError::Corrupt)
    } else {
        Ok(fmt::addr_of(ag, (local * slots + k) as u32))
    }
}

/// Storing `hint` as the block in use for new inodes.
pub open spec fn hint_to(v: Vol, p: Pool, ag: u32, hint: u32) -> (Pool, Result<(), FsError>) {
    match fs::header_of(v, p.t, ag) {
        Err(e) => (p, Err(e)),
        Ok(hdr) => {
            let (s, r) = header_to(with_hdr(p, AgHeader { ino_hint: hint, ..hdr }), v.bs);
            (pool(s), r)
        },
    }
}

/// A free slot in the block in use for new inodes.
pub open spec fn hinted_slot(v: Vol, t: Map<u64, Seq<u8>>, isz: u16, ag: u32, hint: u32) -> Result<
    Option<u64>,
    FsError,
> {
    if hint == 0 {
        Ok(None)
    } else {
        match vol::rd(v, t, fmt::addr_of(ag, hint)) {
            Err(e) => Err(e),
            Ok(b) => match first_slot(b, isz as int, 0, v.bs as int / isz as int) {
                None => Ok(None),
                Some(k) => match slot_ino(ag, hint, v.bs as int / isz as int, k) {
                    Err(e) => Err(e),
                    Ok(ino) => Ok(Some(ino)),
                },
            },
        }
    }
}

/// Allocating an inode slot: one in the block in use, else the first of a new
/// block.
pub open spec fn inode_allocated(v: Vol, p: Pool, isz: u16, ag: u32) -> (
    Pool,
    Result<u64, FsError>,
) {
    if isz == 0 || isz > v.bs {
        (p, Err(FsError::Corrupt))
    } else {
        match fs::header_of(v, p.t, ag) {
            Err(e) => (p, Err(e)),
            Ok(hdr) => match hinted_slot(v, p.t, isz, ag, hdr.ino_hint) {
                Err(e) => (p, Err(e)),
                Ok(Some(ino)) => (p, Ok(ino)),
                Ok(None) => {
                    let (p1, r1) = allocated(v, p, ag, 1);
                    match r1 {
                        Err(e) => (p1, Err(e)),
                        Ok(blk) => {
                            let p2 = Pool { t: p1.t.insert(blk, fmt::zeros(v.bs as nat)), ..p1 };
                            let (p3, r3) = hint_to(v, p2, ag, fmt::addr_local(blk));
                            match r3 {
                                Err(e) => (p3, Err(e)),
                                Ok(_) => (
                                    p3,
                                    slot_ino(
                                        ag,
                                        fmt::addr_local(blk),
                                        v.bs as int / isz as int,
                                        0,
                                    ),
                                ),
                            }
                        },
                    }
                },
            },
        }
    }
}

/// Releasing an inode slot: it is zeroed, a block that is all zeros then goes
/// back to the allocator, and the block of a slot that went becomes the one in
/// use for new inodes.
pub open spec fn inode_freed(v: Vol, p: Pool, isz: u16, ino: u64) -> (Pool, Result<(), FsError>) {
    if isz == 0 || isz > v.bs {
        (p, Err(FsError::Corrupt))
    } else {
        let ag = fmt::addr_ag(ino);
        let slots = v.bs as int / isz as int;
        let local = (fmt::addr_local(ino) as int / slots) as u32;
        let k = fmt::addr_local(ino) as int % slots;
        let blk = fmt::addr_of(ag, local);
        match vol::rd(v, p.t, blk) {
            Err(e) => (p, Err(e)),
            Ok(b) => {
                let b1 = fmt::splice(b, k * isz, fmt::zeros(isz as nat));
                let p1 = Pool { t: p.t.insert(blk, b1), ..p };
                match fs::header_of(v, p1.t, ag) {
                    Err(e) => (p1, Err(e)),
                    Ok(hdr) => if fmt::zero_bytes(b1, 0, b1.len() as int) {
                        let (p2, r2) = freed(v, p1, blk, 1);
                        match r2 {
                            Err(e) => (p2, Err(e)),
                            Ok(_) => match fs::header_of(v, p2.t, ag) {
                                Err(e) => (p2, Err(e)),
                                Ok(h2) => if h2.ino_hint == local {
                                    hint_to(v, p2, ag, 0)
                                } else {
                                    (p2, Ok(()))
                                },
                            },
                        }
                    } else if hdr.ino_hint != local {
                        hint_to(v, p1, ag, local)
                    } else {
                        (p1, Ok(()))
                    },
                }
            },
        }
    }
}

/// Block `j` of level-1 cell `i` of level-0 cell `c`.
fn block_in(c: u64, i: u32, j: u32) -> (r: u32)
    requires
        c < 0x100_0000,
        i < 16,
        j < 16,
    ensures
        r == cell_start(c as int) + i * ALLOC_FANOUT + j,
{
    (c * CELL_BLOCKS as u64) as u32 + i * ALLOC_FANOUT + j
}

impl Gofs {
    // --- records ---------------------------------------------------------------

    /// Records of a table block that its bitmap can name.
    fn usable_recs(&self) -> (r: u32)
        requires
            self.wf(),
        ensures
            r == usable_recs(self.sb.blocksize),
            3 <= r <= 32,
    {
        let n = self.sb.blocksize / REC_SIZE as u32 - 1;
        if n < 32 {
            n
        } else {
            32
        }
    }

    fn fresh_table(&self) -> (r: Vec<u8>)
        requires
            self.wf(),
        ensures
            r@ == fresh_table(self.sb.blocksize),
            r@.len() == self.sb.blocksize,
    {
        let mut nb = zero_vec(self.sb.blocksize as usize);
        assert(nb@ =~= fmt::zeros(self.sb.blocksize as nat));
        put_magic(&mut nb, &ALLOC_MAGIC);
        nb
    }

    /// Find a table block of the arena with a record to spare.
    fn find_spare_rec(&self, t: &Txn, hdr: &AgHeader) -> (r: Result<
        Option<(u32, Vec<u8>, u32)>,
        FsError,
    >)
        requires
            self.wf(),
            t.wf(self.sb.blocksize),
            hdr.tbl_arena + CELL_BLOCKS <= u32::MAX,
        ensures
            match r {
                Ok(Some((b, buf, idx))) => {
                    &&& spare_rec(
                        self.vol(),
                        t@,
                        hdr.ag_num,
                        hdr.tbl_arena as int,
                        hdr.tbl_arena + CELL_BLOCKS,
                    ) == Ok::<Option<(u32, Seq<u8>, int)>, FsError>(Some((b, buf@, idx as int)))
                    &&& buf@.len() == self.sb.blocksize
                    &&& idx < usable_recs(self.sb.blocksize)
                },
                Ok(None) => spare_rec(
                    self.vol(),
                    t@,
                    hdr.ag_num,
                    hdr.tbl_arena as int,
                    hdr.tbl_arena + CELL_BLOCKS,
                ) == Ok::<Option<(u32, Seq<u8>, int)>, FsError>(None),
                Err(e) => spare_rec(
                    self.vol(),
                    t@,
                    hdr.ag_num,
                    hdr.tbl_arena as int,
                    hdr.tbl_arena + CELL_BLOCKS,
                ) == Err::<Option<(u32, Seq<u8>, int)>, FsError>(e),
            },
    {
        let nrec = self.usable_recs();
        let end = hdr.tbl_arena + CELL_BLOCKS;
        let mut b = hdr.tbl_arena;
        while b < end
            invariant
                b <= end,
                end == hdr.tbl_arena + CELL_BLOCKS,
                self.wf(),
                t.wf(self.sb.blocksize),
                nrec == usable_recs(self.sb.blocksize),
                3 <= nrec <= 32,
                spare_rec(
                    self.vol(),
                    t@,
                    hdr.ag_num,
                    hdr.tbl_arena as int,
                    hdr.tbl_arena + CELL_BLOCKS,
                ) == spare_rec(self.vol(), t@, hdr.ag_num, b as int, end as int),
            decreases end - b,
        {
            let raw = self.txn_read(t, blk_addr(hdr.ag_num, b))?;
            let buf = if magic_is(&raw, &ALLOC_MAGIC) {
                self.tbl_read(t, hdr.ag_num, b)?
            } else {
                // fresh arena block
                self.fresh_table()
            };
            let used = get_u32(&buf, 16);
            if count_bits(used) < nrec {
                let idx = find_clear(used, nrec);
                return Ok(Some((b, buf, idx)));
            }
            b = b + 1;
        }
        Ok(None)
    }

    /// The first cell in state `st`; cells that cannot be read are passed over.
    fn find_cell(&self, t: &Txn, hdr: &AgHeader, st: u8) -> (r: Option<u64>)
        requires
            self.wf(),
            t.wf(self.sb.blocksize),
        ensures
            match r {
                Some(c) => roottable::first_cell(
                    self.vol(),
                    t@,
                    *hdr,
                    st,
                    0,
                    cells_in(*hdr),
                ) == Some(c as int) && c < cells_in(*hdr) && c < 0x100_0000,
                None => roottable::first_cell(self.vol(), t@, *hdr, st, 0, cells_in(*hdr)) is None,
            },
    {
        let (cells, _) = rt_geometry(hdr.length, self.sb.blocksize);
        let mut c: u64 = 0;
        while c < cells
            invariant
                c <= cells == cells_in(*hdr),
                cells <= 0x100_0000,
                self.wf(),
                t.wf(self.sb.blocksize),
                roottable::first_cell(self.vol(), t@, *hdr, st, 0, cells_in(*hdr))
                    == roottable::first_cell(
                    self.vol(),
                    t@,
                    *hdr,
                    st,
                    c as int,
                    cells_in(*hdr),
                ),
            decreases cells - c,
        {
            match self.rt_state(t, hdr, c) {
                Ok(s) => {
                    if s == st {
                        return Some(c);
                    }
                },
                Err(_) => {},
            }
            c = c + 1;
        }
        None
    }

    /// Claim a free cell as a new arena, and its first record.
    fn grow_arena(&mut self, t: &mut Txn, hdr: &mut AgHeader) -> (r: Result<(u32, u16), FsError>)
        requires
            old(self).wf(),
            old(t).wf(old(self).sb.blocksize),
        ensures
            final(self).wf(),
            final(t).wf(final(self).sb.blocksize),
            only_counters(*old(self), *final(self)),
            (st_of(*final(self), *final(t), *final(hdr)), r) == new_arena(
                old(self).vol(),
                st_of(*old(self), *old(t), *old(hdr)),
            ),
    {
        let c = match self.find_cell(t, hdr, CELL_FREE) {
            Some(c) => c,
            None => return Err(FsError::NoArena(hdr.ag_num)),
        };
        if hdr.free_blocks < CELL_BLOCKS || hdr.rsvd_blocks > u32::MAX - CELL_BLOCKS
            || self.sb.free_blocks < CELL_BLOCKS as u64 || self.sb.rsvd_blocks > u64::MAX
            - CELL_BLOCKS as u64 {
            return Err(FsError::Corrupt);
        }
        self.rt_state_set(t, hdr, c, CELL_RSVD)?;
        let arena = (c * CELL_BLOCKS as u64) as u32;
        hdr.tbl_arena = arena;
        hdr.free_blocks = hdr.free_blocks - CELL_BLOCKS;
        hdr.rsvd_blocks = hdr.rsvd_blocks + CELL_BLOCKS;
        self.sb.free_blocks = self.sb.free_blocks - CELL_BLOCKS as u64;
        self.sb.rsvd_blocks = self.sb.rsvd_blocks + CELL_BLOCKS as u64;
        let mut buf = self.fresh_table();
        put_u32(&mut buf, 16, 1);
        self.tbl_write(t, hdr.ag_num, arena, buf);
        Ok((arena, 0))
    }

    /// Claim a free record, growing the arena if needed.
    pub fn tbl_alloc_rec(&mut self, t: &mut Txn, hdr: &mut AgHeader) -> (r: Result<
        (u32, u16),
        FsError,
    >)
        requires
            old(self).wf(),
            old(t).wf(old(self).sb.blocksize),
        ensures
            final(self).wf(),
            final(t).wf(final(self).sb.blocksize),
            only_counters(*old(self), *final(self)),
            (st_of(*final(self), *final(t), *final(hdr)), r) == claim_rec(
                old(self).vol(),
                st_of(*old(self), *old(t), *old(hdr)),
            ),
    {
        if hdr.tbl_arena == 0 {
            return self.grow_arena(t, hdr);
        }
        if hdr.tbl_arena > u32::MAX - CELL_BLOCKS {
            return Err(FsError::Corrupt);
        }
        match self.find_spare_rec(t, hdr)? {
            Some((b, mut buf, idx)) => {
                let used = get_u32(&buf, 16);
                put_u32(&mut buf, 16, with_bit(used, idx));
                let off = REC_SIZE * (1 + idx as usize);
                let z = [0u8; 128];
                assert(z@ =~= fmt::zeros(128));
                put_bytes(&mut buf, off, &z);
                self.tbl_write(t, hdr.ag_num, b, buf);
                Ok((b, idx as u16))
            },
            None => self.grow_arena(t, hdr),
        }
    }

    pub fn tbl_free_rec(&self, t: &mut Txn, ag: u32, r: (u32, u16)) -> (res: Result<(), FsError>)
        requires
            self.wf(),
            old(t).wf(self.sb.blocksize),
        ensures
            final(t).wf(self.sb.blocksize),
            (final(t)@, res) == release_rec(self.vol(), old(t)@, ag, r),
    {
        let mut buf = self.tbl_read(t, ag, r.0)?;
        let off = REC_SIZE * (1 + r.1 as usize);
        if r.1 >= 32 || off + REC_SIZE > buf.len() {
            return Err(FsError::Corrupt);
        }
        let used = get_u32(&buf, 16);
        put_u32(&mut buf, 16, without_bit(used, r.1 as u32));
        let z = [0u8; 128];
        assert(z@ =~= fmt::zeros(128));
        put_bytes(&mut buf, off, &z);
        self.tbl_write(t, ag, r.0, buf);
        Ok(())
    }

    pub fn put_ag_header(&self, t: &mut Txn, hdr: &mut AgHeader) -> (r: Result<(), FsError>)
        requires
            self.wf(),
            old(t).wf(self.sb.blocksize),
        ensures
            final(t).wf(self.sb.blocksize),
            (st_of(*self, *final(t), *final(hdr)), r) == header_to(
                st_of(*self, *old(t), *old(hdr)),
                self.sb.blocksize,
            ),
    {
        if hdr.gen == u64::MAX {
            return Err(FsError::Corrupt);
        }
        hdr.gen = hdr.gen + 1;
        let buf = header_buf(hdr, self.sb.blocksize);
        self.txn_write(t, blk_addr(hdr.ag_num, Gofs::ag_header_block(hdr.ag_num)), buf);
        Ok(())
    }

    pub fn read_ag_header_txn(&self, t: &Txn, ag: u32) -> (r: Result<AgHeader, FsError>)
        requires
            self.wf(),
            t.wf(self.sb.blocksize),
        ensures
            r == fs::header_of(self.vol(), t@, ag),
    {
        let buf = self.txn_read(t, blk_addr(ag, Gofs::ag_header_block(ag)))?;
        match AgHeader::parse(&buf) {
            Ok(h) => Ok(h),
            Err(e) => Err(FsError::Header(ag, e)),
        }
    }

    // --- refinement ------------------------------------------------------------

    /// Refine a free level-0 cell: all 16 level-1 children start free.
    pub fn refine_l0(&mut self, t: &mut Txn, hdr: &mut AgHeader, c: u64) -> (r: Result<
        (u32, u16),
        FsError,
    >)
        requires
            old(self).wf(),
            old(t).wf(old(self).sb.blocksize),
            c <= 0x100_0000,
        ensures
            final(self).wf(),
            final(t).wf(final(self).sb.blocksize),
            only_counters(*old(self), *final(self)),
            (st_of(*final(self), *final(t), *final(hdr)), r) == refine0(
                old(self).vol(),
                st_of(*old(self), *old(t), *old(hdr)),
                c as int,
            ),
    {
        // flip the state before claiming the record: the search for a new
        // arena must not pick this cell
        self.rt_state_set(t, hdr, c, CELL_REFINED)?;
        let r = self.tbl_alloc_rec(t, hdr)?;
        self.rt_ref_set(t, hdr, c, r)?;
        Ok(r)
    }

    /// Refine a free level-1 child of a level-0 record.
    pub fn refine_l1(&mut self, t: &mut Txn, hdr: &mut AgHeader, l0: (u32, u16), i: u32) -> (r:
        Result<(u32, u16), FsError>)
        requires
            old(self).wf(),
            old(t).wf(old(self).sb.blocksize),
            i < 16,
        ensures
            final(self).wf(),
            final(t).wf(final(self).sb.blocksize),
            only_counters(*old(self), *final(self)),
            (st_of(*final(self), *final(t), *final(hdr)), r) == refine1(
                old(self).vol(),
                st_of(*old(self), *old(t), *old(hdr)),
                l0,
                i as int,
            ),
    {
        let r = self.tbl_alloc_rec(t, hdr)?;
        let mut rec = self.rec_read(t, hdr.ag_num, l0)?;
        rec_state_set(&mut rec, i, CELL_REFINED);
        rec_ref_set(&mut rec, i, r);
        self.rec_write(t, hdr.ag_num, l0, &rec)?;
        Ok(r)
    }

    // --- allocation ------------------------------------------------------------

    fn account_alloc(&mut self, t: &Txn, hdr: &mut AgHeader, blocks: u64) -> (r: Result<
        (),
        FsError,
    >)
        requires
            old(self).wf(),
        ensures
            final(self).wf(),
            only_counters(*old(self), *final(self)),
            (st_of(*final(self), *t, *final(hdr)), r) == take(
                st_of(*old(self), *t, *old(hdr)),
                blocks as int,
            ),
    {
        if (hdr.free_blocks as u64) < blocks || ((u32::MAX - hdr.full_blocks) as u64) < blocks
            || self.sb.free_blocks < blocks || u64::MAX - self.sb.full_blocks < blocks {
            return Err(FsError::Corrupt);
        }
        let n = blocks as u32;
        hdr.free_blocks = hdr.free_blocks - n;
        hdr.full_blocks = hdr.full_blocks + n;
        self.sb.free_blocks = self.sb.free_blocks - blocks;
        self.sb.full_blocks = self.sb.full_blocks + blocks;
        Ok(())
    }

    fn account_free(&mut self, t: &Txn, hdr: &mut AgHeader, blocks: u32) -> (r: Result<(), FsError>)
        requires
            old(self).wf(),
        ensures
            final(self).wf(),
            only_counters(*old(self), *final(self)),
            (st_of(*final(self), *t, *final(hdr)), r) == give(
                st_of(*old(self), *t, *old(hdr)),
                blocks as int,
            ),
    {
        if hdr.full_blocks < blocks || u32::MAX - hdr.free_blocks < blocks || self.sb.full_blocks
            < blocks as u64 || u64::MAX - self.sb.free_blocks < blocks as u64 {
            return Err(FsError::Corrupt);
        }
        hdr.free_blocks = hdr.free_blocks + blocks;
        hdr.full_blocks = hdr.full_blocks - blocks;
        self.sb.free_blocks = self.sb.free_blocks + blocks as u64;
        self.sb.full_blocks = self.sb.full_blocks - blocks as u64;
        Ok(())
    }

    /// Set the states of cells `lo` to `hi`.
    fn rt_fill(&self, t: &mut Txn, hdr: &AgHeader, lo: u64, hi: u64, st: u8) -> (r: Result<
        (),
        FsError,
    >)
        requires
            self.wf(),
            old(t).wf(self.sb.blocksize),
            st < 4,
        ensures
            final(t).wf(self.sb.blocksize),
            (final(t)@, r) == roottable::cells_to(
                self.vol(),
                old(t)@,
                *hdr,
                lo as int,
                hi as int,
                st,
            ),
    {
        let mut c = lo;
        while c < hi
            invariant
                lo <= c,
                st < 4,
                self.wf(),
                t.wf(self.sb.blocksize),
                roottable::cells_to(self.vol(), old(t)@, *hdr, lo as int, hi as int, st)
                    == roottable::cells_to(self.vol(), t@, *hdr, c as int, hi as int, st),
            decreases hi - c,
        {
            self.rt_state_set(t, hdr, c, st)?;
            c = c + 1;
        }
        Ok(())
    }

    /// Find `k` free cells in a row.
    fn find_cells(&self, t: &Txn, hdr: &AgHeader, k: u64) -> (r: Result<Option<u64>, FsError>)
        requires
            self.wf(),
            t.wf(self.sb.blocksize),
            k > 0,
        ensures
            match r {
                Ok(Some(c)) => roottable::free_cells(
                    self.vol(),
                    t@,
                    *hdr,
                    k as int,
                    0,
                    0,
                    cells_in(*hdr),
                ) == Ok::<Option<int>, FsError>(Some(c as int)) && c + k <= cells_in(*hdr),
                Ok(None) => roottable::free_cells(
                    self.vol(),
                    t@,
                    *hdr,
                    k as int,
                    0,
                    0,
                    cells_in(*hdr),
                ) == Ok::<Option<int>, FsError>(None),
                Err(e) => roottable::free_cells(
                    self.vol(),
                    t@,
                    *hdr,
                    k as int,
                    0,
                    0,
                    cells_in(*hdr),
                ) == Err::<Option<int>, FsError>(e),
            },
    {
        let (cells, _) = rt_geometry(hdr.length, self.sb.blocksize);
        let mut run: u64 = 0;
        let mut c: u64 = 0;
        while c < cells
            invariant
                c <= cells == cells_in(*hdr),
                cells <= 0x100_0000,
                run <= c,
                run < k,
                self.wf(),
                t.wf(self.sb.blocksize),
                roottable::free_cells(self.vol(), t@, *hdr, k as int, 0, 0, cells_in(*hdr))
                    == roottable::free_cells(
                    self.vol(),
                    t@,
                    *hdr,
                    k as int,
                    c as int,
                    run as int,
                    cells_in(*hdr),
                ),
            decreases cells - c,
        {
            if self.rt_state(t, hdr, c)? == CELL_FREE {
                run = run + 1;
                if run == k {
                    return Ok(Some(c + 1 - k));
                }
            } else {
                run = 0;
            }
            c = c + 1;
        }
        Ok(None)
    }

    pub fn alloc_l0(&mut self, t: &mut Txn, hdr: &mut AgHeader, k: u64) -> (r: Result<u64, FsError>)
        requires
            old(self).wf(),
            old(t).wf(old(self).sb.blocksize),
            k > 0,
        ensures
            final(self).wf(),
            final(t).wf(final(self).sb.blocksize),
            only_counters(*old(self), *final(self)),
            (st_of(*final(self), *final(t), *final(hdr)), r) == alloc0(
                old(self).vol(),
                st_of(*old(self), *old(t), *old(hdr)),
                k as int,
            ),
    {
        let start = match self.find_cells(t, hdr, k)? {
            Some(c) => c,
            None => return Err(FsError::NoRoom { ag: hdr.ag_num, cells: k }),
        };
        proof {
            fmt::lemma_ceil_div(hdr.length as int, 256);
        }
        self.rt_fill(t, hdr, start, start + k, CELL_FULL)?;
        self.account_alloc(t, hdr, k * CELL_BLOCKS as u64)?;
        Ok(blk_addr(hdr.ag_num, (start * CELL_BLOCKS as u64) as u32))
    }

    /// Find a refined cell whose record has `m` free children in a row.
    fn find_room1(&self, t: &Txn, hdr: &AgHeader, m: u32) -> (r: Result<
        Option<(u64, (u32, u16), [u8; 128], u32)>,
        FsError,
    >)
        requires
            self.wf(),
            t.wf(self.sb.blocksize),
        ensures
            match r {
                Ok(Some((c, rf, rec, start))) => {
                    &&& room1(self.vol(), t@, *hdr, m as int, 0) == Ok::<
                        Option<(int, (u32, u16), Seq<u8>, int)>,
                        FsError,
                    >(Some((c as int, rf, rec@, start as int)))
                    &&& c < cells_in(*hdr)
                    &&& c < 0x100_0000
                    &&& start + m <= 16
                    &&& start < 16
                },
                Ok(None) => room1(self.vol(), t@, *hdr, m as int, 0) == Ok::<
                    Option<(int, (u32, u16), Seq<u8>, int)>,
                    FsError,
                >(None),
                Err(e) => room1(self.vol(), t@, *hdr, m as int, 0) == Err::<
                    Option<(int, (u32, u16), Seq<u8>, int)>,
                    FsError,
                >(e),
            },
    {
        let (cells, _) = rt_geometry(hdr.length, self.sb.blocksize);
        let mut c: u64 = 0;
        while c < cells
            invariant
                c <= cells == cells_in(*hdr),
                cells <= 0x100_0000,
                    self.wf(),
                t.wf(self.sb.blocksize),
                room1(self.vol(), t@, *hdr, m as int, 0) == room1(
                    self.vol(),
                    t@,
                    *hdr,
                    m as int,
                    c as int,
                ),
            decreases cells - c,
        {
            if self.rt_state(t, hdr, c)? == CELL_REFINED {
                let r = self.rt_ref(t, hdr, c)?;
                let rec = self.rec_read(t, hdr.ag_num, r)?;
                if let Some(start) = find_run(&rec, m) {
                    return Ok(Some((c, r, rec, start)));
                }
            }
            c = c + 1;
        }
        Ok(None)
    }

    /// Mark children `lo` to `hi` of a record used, `n` blocks in all.
    fn mark_used(
        &mut self,
        t: &mut Txn,
        hdr: &mut AgHeader,
        r: (u32, u16),
        rec: [u8; 128],
        lo: u32,
        hi: u32,
        n: u32,
        blk: u32,
    ) -> (res: Result<u64, FsError>)
        requires
            old(self).wf(),
            old(t).wf(old(self).sb.blocksize),
            lo <= hi <= 16,
        ensures
            final(self).wf(),
            final(t).wf(final(self).sb.blocksize),
            only_counters(*old(self), *final(self)),
            (st_of(*final(self), *final(t), *final(hdr)), res) == mark(
                old(self).vol(),
                st_of(*old(self), *old(t), *old(hdr)),
                r,
                rec@,
                lo as int,
                hi as int,
                n as int,
                blk as int,
            ),
    {
        let mut rec = rec;
        rec_fill(&mut rec, lo, hi, CELL_FULL);
        self.rec_write(t, hdr.ag_num, r, &rec)?;
        self.account_alloc(t, hdr, n as u64)?;
        Ok(blk_addr(hdr.ag_num, blk))
    }

    /// Allocate `m` consecutive level-1 cells (16 blocks each) inside one
    /// level-0 cell.
    pub fn alloc_l1(&mut self, t: &mut Txn, hdr: &mut AgHeader, m: u32) -> (r: Result<u64, FsError>)
        requires
            old(self).wf(),
            old(t).wf(old(self).sb.blocksize),
            m <= 16,
        ensures
            final(self).wf(),
            final(t).wf(final(self).sb.blocksize),
            only_counters(*old(self), *final(self)),
            (st_of(*final(self), *final(t), *final(hdr)), r) == alloc1(
                old(self).vol(),
                st_of(*old(self), *old(t), *old(hdr)),
                m as int,
            ),
    {
        // prefer a level-0 cell already refined (clustered refinement)
        if let Some((c, r, rec, start)) = self.find_room1(t, hdr, m)? {
            let blk = block_in(c, start, 0);
            return self.mark_used(t, hdr, r, rec, start, start + m, m * ALLOC_FANOUT, blk);
        }
        // refine a fresh free level-0 cell
        let c = match self.find_cell(t, hdr, CELL_FREE) {
            Some(c) => c,
            None => return Err(FsError::OutOfSpace(hdr.ag_num)),
        };
        let r = self.refine_l0(t, hdr, c)?;
        let rec = self.rec_read(t, hdr.ag_num, r)?;
        let blk = (c * CELL_BLOCKS as u64) as u32;
        self.mark_used(t, hdr, r, rec, 0, m, m * ALLOC_FANOUT, blk)
    }

    /// Find a refined child of a level-0 record with `n` free blocks in a row.
    fn find_room2_in(&self, t: &Txn, ag: u32, l0rec: &[u8; 128], n: u32) -> (r: Result<
        Option<(u32, (u32, u16), [u8; 128], u32)>,
        FsError,
    >)
        requires
            self.wf(),
            t.wf(self.sb.blocksize),
        ensures
            match r {
                Ok(Some((i, rf, rec, start))) => {
                    &&& room2_in(self.vol(), t@, ag, l0rec@, n as int, 0) == Ok::<
                        Option<(int, (u32, u16), Seq<u8>, int)>,
                        FsError,
                    >(Some((i as int, rf, rec@, start as int)))
                    &&& i < 16
                    &&& start + n <= 16
                    &&& start < 16
                },
                Ok(None) => room2_in(self.vol(), t@, ag, l0rec@, n as int, 0) == Ok::<
                    Option<(int, (u32, u16), Seq<u8>, int)>,
                    FsError,
                >(None),
                Err(e) => room2_in(self.vol(), t@, ag, l0rec@, n as int, 0) == Err::<
                    Option<(int, (u32, u16), Seq<u8>, int)>,
                    FsError,
                >(e),
            },
    {
        let mut i: u32 = 0;
        while i < ALLOC_FANOUT
            invariant
                i <= 16,
                    self.wf(),
                t.wf(self.sb.blocksize),
                room2_in(self.vol(), t@, ag, l0rec@, n as int, 0) == room2_in(
                    self.vol(),
                    t@,
                    ag,
                    l0rec@,
                    n as int,
                    i as int,
                ),
            decreases 16 - i,
        {
            if rec_state(l0rec, i) == CELL_REFINED {
                let l1 = rec_ref(l0rec, i);
                let rec = self.rec_read(t, ag, l1)?;
                if let Some(start) = find_run(&rec, n) {
                    return Ok(Some((i, l1, rec, start)));
                }
            }
            i = i + 1;
        }
        Ok(None)
    }

    /// Find a level-2 record with `n` free blocks in a row.
    fn find_room2(&self, t: &Txn, hdr: &AgHeader, n: u32) -> (r: Result<
        Option<(u32, (u32, u16), [u8; 128], u32)>,
        FsError,
    >)
        requires
            self.wf(),
            t.wf(self.sb.blocksize),
        ensures
            match r {
                Ok(Some((blk, rf, rec, start))) => {
                    &&& room2(self.vol(), t@, *hdr, n as int, 0) == Ok::<
                        Option<(int, (u32, u16), Seq<u8>, int)>,
                        FsError,
                    >(Some((blk as int, rf, rec@, start as int)))
                    &&& start + n <= 16
                },
                Ok(None) => room2(self.vol(), t@, *hdr, n as int, 0) == Ok::<
                    Option<(int, (u32, u16), Seq<u8>, int)>,
                    FsError,
                >(None),
                Err(e) => room2(self.vol(), t@, *hdr, n as int, 0) == Err::<
                    Option<(int, (u32, u16), Seq<u8>, int)>,
                    FsError,
                >(e),
            },
    {
        let (cells, _) = rt_geometry(hdr.length, self.sb.blocksize);
        let mut c: u64 = 0;
        while c < cells
            invariant
                c <= cells == cells_in(*hdr),
                cells <= 0x100_0000,
                    self.wf(),
                t.wf(self.sb.blocksize),
                room2(self.vol(), t@, *hdr, n as int, 0) == room2(
                    self.vol(),
                    t@,
                    *hdr,
                    n as int,
                    c as int,
                ),
            decreases cells - c,
        {
            if self.rt_state(t, hdr, c)? == CELL_REFINED {
                let l0 = self.rt_ref(t, hdr, c)?;
                let l0rec = self.rec_read(t, hdr.ag_num, l0)?;
                if let Some((i, l1, rec, start)) = self.find_room2_in(t, hdr.ag_num, &l0rec, n)? {
                    let blk = block_in(c, i, start);
                    return Ok(Some((blk, l1, rec, start)));
                }
            }
            c = c + 1;
        }
        Ok(None)
    }

    /// Find a refined cell with a free child.
    fn find_spare1(&self, t: &Txn, hdr: &AgHeader) -> (r: Result<
        Option<(u64, (u32, u16), u32)>,
        FsError,
    >)
        requires
            self.wf(),
            t.wf(self.sb.blocksize),
        ensures
            match r {
                Ok(Some((c, l0, i))) => {
                    &&& spare1(self.vol(), t@, *hdr, 0) == Ok::<
                        Option<(int, (u32, u16), int)>,
                        FsError,
                    >(Some((c as int, l0, i as int)))
                    &&& c < 0x100_0000
                    &&& i < 16
                },
                Ok(None) => spare1(self.vol(), t@, *hdr, 0) == Ok::<
                    Option<(int, (u32, u16), int)>,
                    FsError,
                >(None),
                Err(e) => spare1(self.vol(), t@, *hdr, 0) == Err::<
                    Option<(int, (u32, u16), int)>,
                    FsError,
                >(e),
            },
    {
        let (cells, _) = rt_geometry(hdr.length, self.sb.blocksize);
        let mut c: u64 = 0;
        while c < cells
            invariant
                c <= cells == cells_in(*hdr),
                cells <= 0x100_0000,
                self.wf(),
                t.wf(self.sb.blocksize),
                spare1(self.vol(), t@, *hdr, 0) == spare1(self.vol(), t@, *hdr, c as int),
            decreases cells - c,
        {
            if self.rt_state(t, hdr, c)? == CELL_REFINED {
                let l0 = self.rt_ref(t, hdr, c)?;
                let l0rec = self.rec_read(t, hdr.ag_num, l0)?;
                if let Some(i) = find_state(&l0rec, CELL_FREE) {
                    return Ok(Some((c, l0, i)));
                }
            }
            c = c + 1;
        }
        Ok(None)
    }

    /// Refine a child and take its first `n` blocks.
    fn refine_and_take(
        &mut self,
        t: &mut Txn,
        hdr: &mut AgHeader,
        l0: (u32, u16),
        i: u32,
        n: u32,
        blk: u32,
    ) -> (r: Result<u64, FsError>)
        requires
            old(self).wf(),
            old(t).wf(old(self).sb.blocksize),
            i < 16,
            n <= 16,
        ensures
            final(self).wf(),
            final(t).wf(final(self).sb.blocksize),
            only_counters(*old(self), *final(self)),
            (st_of(*final(self), *final(t), *final(hdr)), r) == refine_and_mark(
                old(self).vol(),
                st_of(*old(self), *old(t), *old(hdr)),
                l0,
                i as int,
                n as int,
                blk as int,
            ),
    {
        let l1 = self.refine_l1(t, hdr, l0, i)?;
        let rec = self.rec_read(t, hdr.ag_num, l1)?;
        self.mark_used(t, hdr, l1, rec, 0, n, n, blk)
    }

    /// Allocate `n` (1 to 16) consecutive single blocks inside one level-1
    /// cell.
    pub fn alloc_l2(&mut self, t: &mut Txn, hdr: &mut AgHeader, n: u32) -> (r: Result<u64, FsError>)
        requires
            old(self).wf(),
            old(t).wf(old(self).sb.blocksize),
            n <= 16,
        ensures
            final(self).wf(),
            final(t).wf(final(self).sb.blocksize),
            only_counters(*old(self), *final(self)),
            (st_of(*final(self), *final(t), *final(hdr)), r) == alloc2(
                old(self).vol(),
                st_of(*old(self), *old(t), *old(hdr)),
                n as int,
            ),
    {
        // an existing level-2 record with a free run
        if let Some((blk, l1, rec, start)) = self.find_room2(t, hdr, n)? {
            return self.mark_used(t, hdr, l1, rec, start, start + n, n, blk);
        }
        // a free level-1 cell inside a refined level-0 cell
        if let Some((c, l0, i)) = self.find_spare1(t, hdr)? {
            let blk = block_in(c, i, 0);
            return self.refine_and_take(t, hdr, l0, i, n, blk);
        }
        // a fresh level-0 cell, and its first level-1 cell
        let c = match self.find_cell(t, hdr, CELL_FREE) {
            Some(c) => c,
            None => return Err(FsError::OutOfSpace(hdr.ag_num)),
        };
        let l0 = self.refine_l0(t, hdr, c)?;
        self.refine_and_take(t, hdr, l0, 0, n, (c * CELL_BLOCKS as u64) as u32)
    }

    /// Allocate `n` contiguous blocks in group `ag`. Returns the address of
    /// the first.
    pub fn alloc_extent(&mut self, t: &mut Txn, ag: u32, n: u64) -> (r: Result<u64, FsError>)
        requires
            old(self).wf(),
            old(t).wf(old(self).sb.blocksize),
        ensures
            final(self).wf(),
            final(t).wf(final(self).sb.blocksize),
            only_counters(*old(self), *final(self)),
            (pool_of(*final(self), *final(t)), r) == allocated(
                old(self).vol(),
                pool_of(*old(self), *old(t)),
                ag,
                n as int,
            ),
    {
        proof {
            reveal(allocated);
        }
        let mut hdr = self.read_ag_header_txn(t, ag)?;
        assert(st_of(*self, *t, hdr) == with_hdr(pool_of(*self, *t), hdr));
        let blk = if n >= CELL_BLOCKS as u64 {
            let k = div_up(n, CELL_BLOCKS as u64);
            self.alloc_l0(t, &mut hdr, k)?
        } else if n > ALLOC_FANOUT as u64 {
            let m = div_up(n, ALLOC_FANOUT as u64) as u32;
            self.alloc_l1(t, &mut hdr, m)?
        } else {
            self.alloc_l2(t, &mut hdr, n as u32)?
        };
        self.put_ag_header(t, &mut hdr)?;
        Ok(blk)
    }

    pub fn alloc_block(&mut self, t: &mut Txn, ag: u32) -> (r: Result<u64, FsError>)
        requires
            old(self).wf(),
            old(t).wf(old(self).sb.blocksize),
        ensures
            final(self).wf(),
            final(t).wf(final(self).sb.blocksize),
            only_counters(*old(self), *final(self)),
            (pool_of(*final(self), *final(t)), r) == allocated(
                old(self).vol(),
                pool_of(*old(self), *old(t)),
                ag,
                1,
            ),
    {
        self.alloc_extent(t, ag, 1)
    }

    // --- free and coarsen ------------------------------------------------------

    /// Collapse level-0 cell `c` if all children of its record are free.
    fn coarsen_l0(&mut self, t: &mut Txn, hdr: &AgHeader, ag: u32, c: u64, l0: (u32, u16)) -> (r:
        Result<(), FsError>)
        requires
            old(self).wf(),
            old(t).wf(old(self).sb.blocksize),
            c <= 0x100_0000,
        ensures
            final(self).wf(),
            final(t).wf(final(self).sb.blocksize),
            *final(self) == *old(self),
            (st_of(*final(self), *final(t), *hdr), r) == coarsen0(
                old(self).vol(),
                st_of(*old(self), *old(t), *hdr),
                ag,
                c as int,
                l0,
            ),
    {
        let rec = self.rec_read(t, ag, l0)?;
        if rec_all(&rec, CELL_FREE) {
            self.tbl_free_rec(t, ag, l0)?;
            self.rt_state_set(t, hdr, c, CELL_FREE)?;
            self.rt_ref_set(t, hdr, c, (0, 0))?;
        }
        Ok(())
    }

    /// Free in a child of a refined level-0 cell.
    fn free_in_cell(
        &mut self,
        t: &mut Txn,
        hdr: &mut AgHeader,
        ag: u32,
        local: u32,
        l0: (u32, u16),
        l0rec: [u8; 128],
    ) -> (r: Result<u64, FsError>)
        requires
            old(self).wf(),
            old(t).wf(old(self).sb.blocksize),
        ensures
            final(self).wf(),
            final(t).wf(final(self).sb.blocksize),
            only_counters(*old(self), *final(self)),
            ({
                let (s1, r1) = free_inside(
                    old(self).vol(),
                    st_of(*old(self), *old(t), *old(hdr)),
                    ag,
                    local,
                    l0,
                    l0rec@,
                );
                &&& s1 == st_of(*final(self), *final(t), *final(hdr))
                &&& match r {
                    Ok(k) => r1 == Ok::<int, FsError>(k as int) && (k == 1 || k == 16),
                    Err(e) => r1 == Err::<int, FsError>(e),
                }
            }),
    {
        let mut l0rec = l0rec;
        let i = (local % CELL_BLOCKS) / ALLOC_FANOUT;
        let st = rec_state(&l0rec, i);
        if st == CELL_FULL {
            if local % ALLOC_FANOUT != 0 {
                return Err(FsError::MisalignedSubcell);
            }
            rec_state_set(&mut l0rec, i, CELL_FREE);
            self.rec_write(t, ag, l0, &l0rec)?;
            self.account_free(t, hdr, ALLOC_FANOUT)?;
            Ok(ALLOC_FANOUT as u64)
        } else if st == CELL_REFINED {
            let l1 = rec_ref(&l0rec, i);
            let mut l1rec = self.rec_read(t, ag, l1)?;
            let j = local % ALLOC_FANOUT;
            if rec_state(&l1rec, j) != CELL_FULL {
                return Err(FsError::NotAllocated { ag, local });
            }
            rec_state_set(&mut l1rec, j, CELL_FREE);
            self.account_free(t, hdr, 1)?;
            if rec_all(&l1rec, CELL_FREE) {
                // coarsen: the level-1 cell is free again
                self.tbl_free_rec(t, ag, l1)?;
                rec_state_set(&mut l0rec, i, CELL_FREE);
                rec_ref_set(&mut l0rec, i, (0, 0));
                self.rec_write(t, ag, l0, &l0rec)?;
            } else {
                self.rec_write(t, ag, l1, &l1rec)?;
            }
            Ok(1)
        } else {
            Err(FsError::SubcellState(st))
        }
    }

    /// Free what starts at block `local`.
    fn free_step(&mut self, t: &mut Txn, hdr: &mut AgHeader, ag: u32, local: u32) -> (r: Result<
        u64,
        FsError,
    >)
        requires
            old(self).wf(),
            old(t).wf(old(self).sb.blocksize),
        ensures
            final(self).wf(),
            final(t).wf(final(self).sb.blocksize),
            only_counters(*old(self), *final(self)),
            ({
                let (s1, r1) = free_one(
                    old(self).vol(),
                    st_of(*old(self), *old(t), *old(hdr)),
                    ag,
                    local,
                );
                &&& s1 == st_of(*final(self), *final(t), *final(hdr))
                &&& match r {
                    Ok(k) => r1 == Ok::<int, FsError>(k as int) && 1 <= k <= 256,
                    Err(e) => r1 == Err::<int, FsError>(e),
                }
            }),
    {
        proof {
            reveal(free_one);
        }
        let c = (local / CELL_BLOCKS) as u64;
        let st = self.rt_state(t, hdr, c)?;
        if st == CELL_FULL {
            if local % CELL_BLOCKS != 0 {
                return Err(FsError::MisalignedCell);
            }
            self.rt_state_set(t, hdr, c, CELL_FREE)?;
            self.account_free(t, hdr, CELL_BLOCKS)?;
            Ok(CELL_BLOCKS as u64)
        } else if st == CELL_REFINED {
            let l0 = self.rt_ref(t, hdr, c)?;
            let l0rec = self.rec_read(t, ag, l0)?;
            let k = self.free_in_cell(t, hdr, ag, local, l0, l0rec)?;
            self.coarsen_l0(t, hdr, ag, c, l0)?;
            Ok(k)
        } else {
            Err(FsError::CellState { ag, cell: c, state: st })
        }
    }

    /// Free `n` blocks from address `blk` on. Granularity is found again from
    /// the states; empty records coarsen away.
    #[verifier::loop_isolation(false)]
    pub fn free_extent(&mut self, t: &mut Txn, blk: u64, n: u64) -> (r: Result<(), FsError>)
        requires
            old(self).wf(),
            old(t).wf(old(self).sb.blocksize),
        ensures
            final(self).wf(),
            final(t).wf(final(self).sb.blocksize),
            only_counters(*old(self), *final(self)),
            (pool_of(*final(self), *final(t)), r) == freed(
                old(self).vol(),
                pool_of(*old(self), *old(t)),
                blk,
                n as int,
            ),
    {
        proof {
            reveal(freed);
        }
        let (ag, local0) = blk_split(blk);
        let mut hdr = self.read_ag_header_txn(t, ag)?;
        let ghost v = self.vol();
        let ghost s0 = st_of(*self, *t, hdr);
        let mut cur: u64 = 0;
        assert(s0 == with_hdr(pool_of(*self, *t), hdr));
        while cur < n
            invariant
                self.wf(),
                t.wf(self.sb.blocksize),
                only_counters(*old(self), *self),
                v == self.vol(),
                cur <= u32::MAX + 257,
                free_from(v, s0, ag, local0, 0, n as int) == free_from(
                    v,
                    st_of(*self, *t, hdr),
                    ag,
                    local0,
                    cur as int,
                    n as int,
                ),
            decreases if cur < n { n - cur } else { 0 },
        {
            if cur > (u32::MAX - local0) as u64 {
                return Err(FsError::Corrupt);
            }
            let k = self.free_step(t, &mut hdr, ag, local0 + cur as u32)?;
            cur = cur + k;
        }
        self.put_ag_header(t, &mut hdr)?;
        Ok(())
    }

    // --- inodes ----------------------------------------------------------------

    /// Store `hint` as the block in use for new inodes.
    fn put_ino_hint(&self, t: &mut Txn, ag: u32, hint: u32) -> (r: Result<(), FsError>)
        requires
            self.wf(),
            old(t).wf(self.sb.blocksize),
        ensures
            final(t).wf(self.sb.blocksize),
            (pool_of(*self, *final(t)), r) == hint_to(
                self.vol(),
                pool_of(*self, *old(t)),
                ag,
                hint,
            ),
    {
        let mut hdr = self.read_ag_header_txn(t, ag)?;
        hdr.ino_hint = hint;
        self.put_ag_header(t, &mut hdr)
    }

    /// Find a free slot in the block in use for new inodes.
    fn find_hinted(&self, t: &Txn, ag: u32, hint: u32) -> (r: Result<Option<u64>, FsError>)
        requires
            self.wf(),
            t.wf(self.sb.blocksize),
            0 < self.sb.inodesize <= self.sb.blocksize,
        ensures
            r == hinted_slot(self.vol(), t@, self.sb.inodesize, ag, hint),
    {
        if hint == 0 {
            return Ok(None);
        }
        let isz = self.sb.inodesize as u32;
        let bs = self.sb.blocksize;
        let slots = bs / isz;
        let buf = self.txn_read(t, blk_addr(ag, hint))?;
        let mut k: u32 = 0;
        while k < slots
            invariant
                k <= slots,
                slots == bs / isz,
                isz == self.sb.inodesize,
                isz > 0,
                bs == self.sb.blocksize,
                buf@.len() == bs,
                hint != 0,
                vol::rd(self.vol(), t@, fmt::addr_of(ag, hint)) == Ok::<Seq<u8>, FsError>(buf@),
                first_slot(buf@, isz as int, 0, slots as int) == first_slot(
                    buf@,
                    isz as int,
                    k as int,
                    slots as int,
                ),
            decreases slots - k,
        {
            proof {
                lemma_slot_bounds(k as int, isz as int, bs as int);
            }
            if zero_range(&buf, (k * isz) as usize, (k * isz + isz) as usize) {
                return match slot_number(ag, hint, slots, k) {
                    Ok(ino) => Ok(Some(ino)),
                    Err(e) => Err(e),
                };
            }
            k = k + 1;
        }
        Ok(None)
    }

    /// Allocate an inode slot. A new inode block is a single-block allocation;
    /// free slots are zeroed.
    pub fn alloc_inode(&mut self, t: &mut Txn, ag: u32) -> (r: Result<u64, FsError>)
        requires
            old(self).wf(),
            old(t).wf(old(self).sb.blocksize),
        ensures
            final(self).wf(),
            final(t).wf(final(self).sb.blocksize),
            only_counters(*old(self), *final(self)),
            (pool_of(*final(self), *final(t)), r) == inode_allocated(
                old(self).vol(),
                pool_of(*old(self), *old(t)),
                old(self).sb.inodesize,
                ag,
            ),
    {
        let isz = self.sb.inodesize as u32;
        if isz == 0 || isz > self.sb.blocksize {
            return Err(FsError::Corrupt);
        }
        let hdr = self.read_ag_header_txn(t, ag)?;
        if let Some(ino) = self.find_hinted(t, ag, hdr.ino_hint)? {
            return Ok(ino);
        }
        let slots = self.sb.blocksize / isz;
        let blk = self.alloc_extent(t, ag, 1)?;
        let (_, local) = blk_split(blk);
        let z = zero_vec(self.sb.blocksize as usize);
        assert(z@ =~= fmt::zeros(self.sb.blocksize as nat));
        self.txn_write(t, blk, z);
        self.put_ino_hint(t, ag, local)?;
        slot_number(ag, local, slots, 0)
    }

    /// Release an inode slot (zero it). A block whose slots are all free goes
    /// back to the allocator.
    pub fn free_inode(&mut self, t: &mut Txn, ino: u64) -> (r: Result<(), FsError>)
        requires
            old(self).wf(),
            old(t).wf(old(self).sb.blocksize),
        ensures
            final(self).wf(),
            final(t).wf(final(self).sb.blocksize),
            only_counters(*old(self), *final(self)),
            (pool_of(*final(self), *final(t)), r) == inode_freed(
                old(self).vol(),
                pool_of(*old(self), *old(t)),
                old(self).sb.inodesize,
                ino,
            ),
    {
        let isz = self.sb.inodesize as u32;
        if isz == 0 || isz > self.sb.blocksize {
            return Err(FsError::Corrupt);
        }
        let (ag, slot) = blk_split(ino);
        let bs = self.sb.blocksize;
        assert(bs / isz > 0) by (nonlinear_arith)
            requires
                0 < isz <= bs,
        ;
        let slots = bs / isz;
        let local = slot / slots;
        let k = slot % slots;
        proof {
            lemma_slot_bounds(k as int, isz as int, bs as int);
        }
        let blk = blk_addr(ag, local);
        let mut buf = self.txn_read(t, blk)?;
        let off = (k * isz) as usize;
        let z = zero_vec(isz as usize);
        assert(z@ =~= fmt::zeros(isz as nat));
        put_bytes(&mut buf, off, &z);
        let empty = zero_range(&buf, 0, buf.len());
        self.txn_write(t, blk, buf);
        let hdr = self.read_ag_header_txn(t, ag)?;
        if empty {
            self.free_extent(t, blk, 1)?;
            let hdr = self.read_ag_header_txn(t, ag)?;  // free_extent rewrote it
            if hdr.ino_hint == local {
                self.put_ino_hint(t, ag, 0)?;
            }
        } else if hdr.ino_hint != local {
            self.put_ino_hint(t, ag, local)?;
        }
        Ok(())
    }
}

/// The number of slot `k` in block `local`.
fn slot_number(ag: u32, local: u32, slots: u32, k: u32) -> (r: Result<u64, FsError>)
    ensures
        r == slot_ino(ag, local, slots as int, k as int),
{
    assert(local * slots <= 0xffff_ffff * 0xffff_ffff) by (nonlinear_arith)
        requires
            0 <= local <= 0xffff_ffff,
            0 <= slots <= 0xffff_ffff,
    ;
    let n = local as u64 * slots as u64 + k as u64;
    if n > u32::MAX as u64 {
        return Err(FsError::Corrupt);
    }
    Ok(ino_addr(ag, n as u32))
}

/// Whether the bytes `lo` to `hi` are all zero.
pub fn zero_range(b: &[u8], lo: usize, hi: usize) -> (r: bool)
    requires
        lo <= hi <= b@.len(),
    ensures
        r == fmt::zero_bytes(b@, lo as int, hi as int),
{
    let mut i = lo;
    while i < hi
        invariant
            lo <= i <= hi <= b@.len(),
            fmt::zero_bytes(b@, lo as int, i as int),
        decreases hi - i,
    {
        if b[i] != 0 {
            return false;
        }
        i = i + 1;
    }
    true
}

/// A slot lies within its block.
pub proof fn lemma_slot_bounds(k: int, isz: int, bs: int)
    requires
        0 <= k < bs / isz,
        isz > 0,
        bs > 0,
    ensures
        0 <= k * isz,
        k * isz + isz <= bs,
{
    assert(0 <= k * isz && k * isz + isz <= bs) by (nonlinear_arith)
        requires
            0 <= k < bs / isz,
            isz > 0,
            bs > 0,
    ;
}

} // verus!
