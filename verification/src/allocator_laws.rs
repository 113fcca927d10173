//! What the allocator promises: blocks that it hands out were free, blocks
//! that it takes back were in use, and its counters balance.

use crate::allocator::{Pool, St};
use crate::error::FsError;
use crate::fmt::{CELL_FREE, CELL_FULL, CELL_REFINED, CELL_RSVD};
use crate::header::AgHeader;
use crate::vol::Vol;
use vstd::prelude::*;

use crate::allocator;
use crate::fmt;
use crate::fs;
use crate::record;
use crate::roottable;
use crate::tables;

verus! {

/// Blocks `lo` to `hi` of a group are all in one state.
pub open spec fn all_state(v: Vol, t: Map<u64, Seq<u8>>, hdr: AgHeader, lo: int, hi: int, st: u8) -> bool {
    forall|b: int|
        lo <= b < hi ==> #[trigger] tables::block_state(v, t, hdr, b) == Ok::<u8, FsError>(st)
}

/// Which cell and which part of it a block is in.
pub proof fn lemma_part(c: int, i: int, b: int)
    requires
        0 <= i < 16,
    ensures
        (c * 256 + i * 16 <= b < c * 256 + i * 16 + 16) == (b / 256 == c && b % 256 / 16 == i),
        (b / 256 == c && b % 256 / 16 == i) ==> b % 16 == b - (c * 256 + i * 16),
{
    let q = b / 256;
    let r = b % 256;
    let k = r / 16;
    let m = r % 16;
    assert(b == 256 * q + r && 0 <= r < 256);
    assert(r == 16 * k + m && 0 <= m < 16);
    assert(b == 16 * (16 * q + k) + m);
    assert(b % 16 == m);
    if c * 256 + i * 16 <= b < c * 256 + i * 16 + 16 {
        assert(q == c);
        assert(k == i);
    }
}

// --- searches -----------------------------------------------------------------

/// Cells that are found in a row are free.
pub proof fn lemma_free_cells(
    v: Vol,
    t: Map<u64, Seq<u8>>,
    hdr: AgHeader,
    k: int,
    c: int,
    run: int,
    cells: int,
)
    requires
        0 <= run < k,
        run <= c,
        forall|x: int|
            c - run <= x < c ==> #[trigger] roottable::cell_of(v, t, hdr, x) == Ok::<u8, FsError>(
                CELL_FREE,
            ),
    ensures
        roottable::free_cells(v, t, hdr, k, c, run, cells) matches Ok(Some(s)) ==> 0 <= s && s + k
            <= cells && forall|x: int|
            s <= x < s + k ==> #[trigger] roottable::cell_of(v, t, hdr, x) == Ok::<u8, FsError>(
                CELL_FREE,
            ),
    decreases cells - c,
{
    if c < cells {
        match roottable::cell_of(v, t, hdr, c) {
            Err(_) => {},
            Ok(st) => if st != CELL_FREE {
                lemma_free_cells(v, t, hdr, k, c + 1, 0, cells);
            } else if run + 1 != k {
                lemma_free_cells(v, t, hdr, k, c + 1, run + 1, cells);
            },
        }
    }
}

/// A run that is found in a record is free.
proof fn lemma_first_run(rec: Seq<u8>, m: int)
    ensures
        record::first_run(rec, m) matches Some(s) ==> record::is_run(rec, s, m),
{
}

/// Room for level-1 cells is in a refined cell, at a free run.
pub proof fn lemma_room1(v: Vol, t: Map<u64, Seq<u8>>, hdr: AgHeader, m: int, c: int)
    requires
        0 <= c,
    ensures
        allocator::room1(v, t, hdr, m, c) matches Ok(Some((x, r, rec, s))) ==> {
            &&& c <= x < allocator::cells_in(hdr)
            &&& roottable::cell_of(v, t, hdr, x) == Ok::<u8, FsError>(CELL_REFINED)
            &&& roottable::cell_ref(v, t, hdr, x) == Ok::<(u32, u16), FsError>(r)
            &&& roottable::record_of(v, t, hdr.ag_num, r) == Ok::<Seq<u8>, FsError>(rec)
            &&& record::is_run(rec, s, m)
        },
    decreases allocator::cells_in(hdr) - c,
{
    if c < allocator::cells_in(hdr) {
        if let Ok(st) = roottable::cell_of(v, t, hdr, c) {
            if st != CELL_REFINED {
                lemma_room1(v, t, hdr, m, c + 1);
            } else if let Ok(r) = roottable::cell_ref(v, t, hdr, c) {
                if let Ok(rec) = roottable::record_of(v, t, hdr.ag_num, r) {
                    lemma_first_run(rec, m);
                    if record::first_run(rec, m) is None {
                        lemma_room1(v, t, hdr, m, c + 1);
                    }
                }
            }
        }
    }
}

/// Room for blocks in a record is in a refined child, at a free run.
proof fn lemma_room2_in(v: Vol, t: Map<u64, Seq<u8>>, ag: u32, rec: Seq<u8>, n: int, i: int)
    requires
        0 <= i,
    ensures
        allocator::room2_in(v, t, ag, rec, n, i) matches Ok(Some((x, l1, sub, s))) ==> {
            &&& i <= x < 16
            &&& fmt::cell_at(rec, x) == CELL_REFINED
            &&& l1 == record::ref_of(rec, x)
            &&& roottable::record_of(v, t, ag, l1) == Ok::<Seq<u8>, FsError>(sub)
            &&& record::is_run(sub, s, n)
        },
    decreases 16 - i,
{
    if i < 16 {
        if fmt::cell_at(rec, i) != CELL_REFINED {
            lemma_room2_in(v, t, ag, rec, n, i + 1);
        } else if let Ok(sub) = roottable::record_of(v, t, ag, record::ref_of(rec, i)) {
            lemma_first_run(sub, n);
            if record::first_run(sub, n) is None {
                lemma_room2_in(v, t, ag, rec, n, i + 1);
            }
        }
    }
}

/// The run that `room2` found is in child `i` of cell `d`.
pub open spec fn run_at(
    v: Vol,
    t: Map<u64, Seq<u8>>,
    hdr: AgHeader,
    n: int,
    found: (int, (u32, u16), Seq<u8>, int),
    d: int,
    i: int,
) -> bool {
    let (blk, l1, sub, s) = found;
    &&& tables::holds(v, t, hdr, d, i)
    &&& i < 16
    &&& tables::held(v, t, hdr, d, i) == l1
    &&& roottable::record_of(v, t, hdr.ag_num, l1) == Ok::<Seq<u8>, FsError>(sub)
    &&& roottable::cell_ref(v, t, hdr, d) is Ok
    &&& roottable::record_of(v, t, hdr.ag_num, tables::held(v, t, hdr, d, 16)) is Ok
    &&& record::is_run(sub, s, n)
    &&& blk == d * 256 + i * 16 + s
}

/// Where `room2` found its run.
pub proof fn lemma_room2_at(v: Vol, t: Map<u64, Seq<u8>>, hdr: AgHeader, n: int, c: int) -> (w: (
    int,
    int,
))
    requires
        0 <= c,
    ensures
        allocator::room2(v, t, hdr, n, c) matches Ok(Some(found)) ==> run_at(
            v,
            t,
            hdr,
            n,
            found,
            w.0,
            w.1,
        ),
    decreases allocator::cells_in(hdr) - c,
{
    if c >= allocator::cells_in(hdr) {
        (0, 0)
    } else if tables::holds(v, t, hdr, c, 16) {
        let l0 = roottable::cell_ref(v, t, hdr, c);
        let rec = roottable::record_of(v, t, hdr.ag_num, l0->Ok_0);
        lemma_room2_in(v, t, hdr.ag_num, rec->Ok_0, n, 0);
        let found = allocator::room2_in(v, t, hdr.ag_num, rec->Ok_0, n, 0);
        if found matches Ok(Some(_)) {
            (c, (found->Ok_0->Some_0).0)
        } else {
            lemma_room2_at(v, t, hdr, n, c + 1)
        }
    } else {
        lemma_room2_at(v, t, hdr, n, c + 1)
    }
}

/// A spare child is a free one of a refined cell.
proof fn lemma_spare1(v: Vol, t: Map<u64, Seq<u8>>, hdr: AgHeader, c: int)
    requires
        0 <= c,
    ensures
        allocator::spare1(v, t, hdr, c) matches Ok(Some((x, l0, i))) ==> {
            &&& c <= x < allocator::cells_in(hdr)
            &&& 0 <= i < 16
            &&& all_state(v, t, hdr, x * 256 + i * 16, x * 256 + i * 16 + 16, CELL_FREE)
        },
    decreases allocator::cells_in(hdr) - c,
{
    if c < allocator::cells_in(hdr) {
        if let Ok(st) = roottable::cell_of(v, t, hdr, c) {
            if st != CELL_REFINED {
                lemma_spare1(v, t, hdr, c + 1);
            } else if let Ok(l0) = roottable::cell_ref(v, t, hdr, c) {
                if let Ok(rec) = roottable::record_of(v, t, hdr.ag_num, l0) {
                    lemma_first_in(rec, CELL_FREE, 0);
                    match record::first_in(rec, CELL_FREE, 0) {
                        None => {
                            lemma_spare1(v, t, hdr, c + 1);
                        },
                        Some(i) => {
                            let lo = c * 256 + i * 16;
                            assert forall|b: int| lo <= b < lo + 16 implies #[trigger] tables::block_state(
                                v,
                                t,
                                hdr,
                                b,
                            ) == Ok::<u8, FsError>(CELL_FREE) by {
                                assert(b / 256 == c && b % 256 / 16 == i);
                            }
                        },
                    }
                }
            }
        }
    }
}

proof fn lemma_first_in(rec: Seq<u8>, st: u8, i: int)
    requires
        0 <= i,
    ensures
        record::first_in(rec, st, i) matches Some(x) ==> i <= x < 16 && fmt::cell_at(rec, x) == st,
    decreases 16 - i,
{
    if i < 16 && fmt::cell_at(rec, i) != st {
        lemma_first_in(rec, st, i + 1);
    }
}

/// The blocks of a free cell are free.
proof fn lemma_cell_blocks(v: Vol, t: Map<u64, Seq<u8>>, hdr: AgHeader, c: int, k: int, st: u8)
    requires
        st != CELL_REFINED,
        forall|x: int|
            c <= x < c + k ==> #[trigger] roottable::cell_of(v, t, hdr, x) == Ok::<u8, FsError>(st),
    ensures
        all_state(v, t, hdr, c * 256, (c + k) * 256, st),
{
    assert forall|b: int| c * 256 <= b < (c + k) * 256 implies #[trigger] tables::block_state(
        v,
        t,
        hdr,
        b,
    ) == Ok::<u8, FsError>(st) by {
        assert(c <= b / 256 < c + k);
    }
}

// --- what is handed out -------------------------------------------------------

/// What an allocation that hands out block `b` promises: the `n` blocks from
/// there on were free, and lie in the group.
pub open spec fn was_free(v: Vol, s: St, blk: u64, n: int) -> bool {
    let b = fmt::addr_local(blk) as int;
    &&& fmt::addr_ag(blk) == s.hdr.ag_num
    &&& b + n <= allocator::cells_in(s.hdr) * 256
    &&& all_state(v, s.t, s.hdr, b, b + n, CELL_FREE)
}

/// A free run from `lo` on, named by its address.
proof fn lemma_was_free(v: Vol, s: St, lo: int, hi: int, n: int)
    requires
        0 <= lo,
        1 <= n <= hi - lo,
        hi <= allocator::cells_in(s.hdr) * 256,
        all_state(v, s.t, s.hdr, lo, hi, CELL_FREE),
        lo / 256 < allocator::cells_in(s.hdr),
    ensures
        was_free(v, s, fmt::addr_of(s.hdr.ag_num, lo as u32), n),
{
    fmt::lemma_ceil_div(s.hdr.length as int, 256);
    assert(lo <= u32::MAX);
    fmt::law_address_halves(s.hdr.ag_num, lo as u32, 0);
}

/// Marking hands out the block it is told to.
pub proof fn lemma_mark(
    v: Vol,
    s: St,
    r: (u32, u16),
    rec: Seq<u8>,
    lo: int,
    hi: int,
    n: int,
    blk: int,
)
    ensures
        allocator::mark(v, s, r, rec, lo, hi, n, blk).1 matches Ok(x) ==> x == fmt::addr_of(
            s.hdr.ag_num,
            blk as u32,
        ),
{
}

proof fn lemma_refine_and_mark(v: Vol, s: St, l0: (u32, u16), i: int, n: int, blk: int)
    ensures
        allocator::refine_and_mark(v, s, l0, i, n, blk).1 matches Ok(x) ==> x == fmt::addr_of(
            s.hdr.ag_num,
            blk as u32,
        ),
{
    let (s1, r1) = allocator::refine1(v, s, l0, i);
    lemma_claim_keeps(v, s);
    assert(s1.hdr.ag_num == s.hdr.ag_num);
    if let Ok(l1) = r1 {
        if let Ok(rec) = roottable::record_of(v, s1.t, s1.hdr.ag_num, l1) {
            lemma_mark(v, s1, l1, rec, 0, n, n, blk);
        }
    }
}

proof fn lemma_alloc0_free(v: Vol, s: St, n: int)
    requires
        256 <= n,
    ensures
        allocator::alloc0(v, s, fmt::ceil_div(n, 256)).1 matches Ok(blk) ==> was_free(
            v,
            s,
            blk,
            n,
        ),
{
    let cells = allocator::cells_in(s.hdr);
    let k = fmt::ceil_div(n, 256);
    fmt::lemma_ceil_div(n, 256);
    lemma_free_cells(v, s.t, s.hdr, k, 0, 0, cells);
    if let Ok(Some(c)) = roottable::free_cells(v, s.t, s.hdr, k, 0, 0, cells) {
        lemma_cell_blocks(v, s.t, s.hdr, c, k, CELL_FREE);
        lemma_was_free(v, s, c * 256, (c + k) * 256, n);
    }
}

proof fn lemma_alloc1_free(v: Vol, s: St, n: int)
    requires
        16 < n < 256,
    ensures
        allocator::alloc1(v, s, fmt::ceil_div(n, 16)).1 matches Ok(blk) ==> was_free(
            v,
            s,
            blk,
            n,
        ),
{
    let cells = allocator::cells_in(s.hdr);
    let m = fmt::ceil_div(n, 16);
    fmt::lemma_ceil_div(n, 16);
    lemma_room1(v, s.t, s.hdr, m, 0);
    tables::lemma_first_cell(v, s.t, s.hdr, CELL_FREE, 0, cells);
    match allocator::room1(v, s.t, s.hdr, m, 0) {
        Err(_) => {},
        Ok(Some((c, r, rec, start))) => {
            let lo = c * 256 + start * 16;
            assert forall|b: int| lo <= b < lo + m * 16 implies #[trigger] tables::block_state(
                v,
                s.t,
                s.hdr,
                b,
            ) == Ok::<u8, FsError>(CELL_FREE) by {
                assert(b / 256 == c && start <= b % 256 / 16 < start + m);
            }
            lemma_was_free(v, s, lo, lo + m * 16, n);
            lemma_mark(v, s, r, rec, start, start + m, m * 16, lo);
        },
        Ok(None) => match roottable::first_cell(v, s.t, s.hdr, CELL_FREE, 0, cells) {
            None => {},
            Some(c) => {
                lemma_cell_blocks(v, s.t, s.hdr, c, 1, CELL_FREE);
                lemma_was_free(v, s, c * 256, (c + 1) * 256, n);
                lemma_refine_keeps(v, s, c);
                let (s1, r1) = allocator::refine0(v, s, c);
                if let Ok(r) = r1 {
                    if let Ok(rec) = roottable::record_of(v, s1.t, s1.hdr.ag_num, r) {
                        lemma_mark(v, s1, r, rec, 0, m, m * 16, c * 256);
                    }
                }
            },
        },
    }
}

/// Room for blocks is where they are free.
proof fn lemma_room2_free(v: Vol, s: St, n: int)
    requires
        1 <= n <= 16,
        allocator::room2(v, s.t, s.hdr, n, 0) matches Ok(Some(_)),
    ensures
        was_free(
            v,
            s,
            fmt::addr_of(
                s.hdr.ag_num,
                (allocator::room2(v, s.t, s.hdr, n, 0)->Ok_0->Some_0).0 as u32,
            ),
            n,
        ),
{
    let (blk, l1, rec, start) = allocator::room2(v, s.t, s.hdr, n, 0)->Ok_0->Some_0;
    let (d, i) = lemma_room2_at(v, s.t, s.hdr, n, 0);
    assert forall|b: int| blk <= b < blk + n implies #[trigger] tables::block_state(
        v,
        s.t,
        s.hdr,
        b,
    ) == Ok::<u8, FsError>(CELL_FREE) by {
        lemma_part(d, i, b);
    }
    lemma_was_free(v, s, blk, blk + n, n);
}

proof fn lemma_alloc2_free(v: Vol, s: St, n: int)
    requires
        1 <= n <= 16,
    ensures
        allocator::alloc2(v, s, n).1 matches Ok(blk) ==> was_free(v, s, blk, n),
{
    let cells = allocator::cells_in(s.hdr);
    lemma_spare1(v, s.t, s.hdr, 0);
    tables::lemma_first_cell(v, s.t, s.hdr, CELL_FREE, 0, cells);
    match allocator::room2(v, s.t, s.hdr, n, 0) {
        Err(_) => {},
        Ok(Some((blk, l1, rec, start))) => {
            lemma_room2_free(v, s, n);
            lemma_mark(v, s, l1, rec, start, start + n, n, blk);
        },
        Ok(None) => match allocator::spare1(v, s.t, s.hdr, 0) {
            Err(_) => {},
            Ok(Some((c, l0, i))) => {
                lemma_was_free(v, s, c * 256 + i * 16, c * 256 + i * 16 + 16, n);
                lemma_refine_and_mark(v, s, l0, i, n, c * 256 + i * 16);
            },
            Ok(None) => match roottable::first_cell(v, s.t, s.hdr, CELL_FREE, 0, cells) {
                None => {},
                Some(c) => {
                    lemma_cell_blocks(v, s.t, s.hdr, c, 1, CELL_FREE);
                    lemma_was_free(v, s, c * 256, (c + 1) * 256, n);
                    lemma_refine_keeps(v, s, c);
                    let (s1, r1) = allocator::refine0(v, s, c);
                    if let Ok(l0) = r1 {
                        lemma_refine_and_mark(v, s1, l0, 0, n, c * 256);
                    }
                },
            },
        },
    }
}

/// Claiming a record keeps the number of the group.
proof fn lemma_claim_keeps(v: Vol, s: St)
    ensures
        allocator::claim_rec(v, s).0.hdr.ag_num == s.hdr.ag_num,
        allocator::claim_rec(v, s).0.hdr.length == s.hdr.length,
        allocator::claim_rec(v, s).0.hdr.alloc_root == s.hdr.alloc_root,
{
}

proof fn lemma_refine_keeps(v: Vol, s: St, c: int)
    ensures
        allocator::refine0(v, s, c).0.hdr.ag_num == s.hdr.ag_num,
        allocator::refine0(v, s, c).0.hdr.length == s.hdr.length,
        allocator::refine0(v, s, c).0.hdr.alloc_root == s.hdr.alloc_root,
{
    let t1 = roottable::cell_to(v, s.t, s.hdr, c, CELL_REFINED).0;
    lemma_claim_keeps(v, St { t: t1, ..s });
}

/// Blocks that are handed out were free before, and are as many as were asked
/// for, inside the group.
pub proof fn law_allocated_blocks_were_free(v: Vol, p: Pool, ag: u32, n: int)
    requires
        1 <= n,
    ensures
        allocator::allocated(v, p, ag, n).1 matches Ok(blk) ==> fs::header_of(v, p.t, ag) matches Ok(
            hdr,
        ) && was_free(v, allocator::with_hdr(p, hdr), blk, n),
{
    reveal(allocator::allocated);
    if let Ok(hdr) = fs::header_of(v, p.t, ag) {
        let s = allocator::with_hdr(p, hdr);
        if n >= 256 {
            lemma_alloc0_free(v, s, n);
        } else if n > 16 {
            lemma_alloc1_free(v, s, n);
        } else {
            lemma_alloc2_free(v, s, n);
        }
    }
}

// --- what becomes of the tables -----------------------------------------------

/// What an allocation does to block `b`: it is used if it is one of `lo` to
/// `hi`; else it keeps its state, unless it was free and is reserved now, for
/// tables.
pub open spec fn taken_at(
    v: Vol,
    t: Map<u64, Seq<u8>>,
    t1: Map<u64, Seq<u8>>,
    hdr: AgHeader,
    lo: int,
    hi: int,
    b: int,
) -> bool {
    let x = tables::block_state(v, t, hdr, b);
    let y = tables::block_state(v, t1, hdr, b);
    if lo <= b < hi {
        y == Ok::<u8, FsError>(CELL_FULL)
    } else {
        y == x || (x == Ok::<u8, FsError>(CELL_FREE) && y == Ok::<u8, FsError>(CELL_RSVD))
    }
}

/// What an allocation does to the blocks of the group.
pub open spec fn taken(
    v: Vol,
    t: Map<u64, Seq<u8>>,
    t1: Map<u64, Seq<u8>>,
    hdr: AgHeader,
    lo: int,
    hi: int,
) -> bool {
    forall|b: int|
        0 <= b < tables::block_count(hdr) ==> #[trigger] taken_at(v, t, t1, hdr, lo, hi, b)
}

/// What a successful allocation leaves: sound tables, and blocks `lo` to `hi`
/// in use.
#[verifier::opaque]
pub open spec fn well_taken(v: Vol, s: St, s1: St, lo: int, hi: int) -> bool {
    &&& tables::same_place(s.hdr, s1.hdr)
    &&& tables::sound(v, s1.t, s1.hdr)
    &&& taken(v, s.t, s1.t, s.hdr, lo, hi)
}

/// Marking free children of a refined cell.
#[verifier::rlimit(40)]
proof fn lemma_mark1(v: Vol, s: St, c: int, lo: int, hi: int, n: int, blk: int)
    requires
        tables::sound(v, s.t, s.hdr),
        tables::holds(v, s.t, s.hdr, c, 16),
        0 <= lo <= hi <= 16,
    ensures
        ({
            let l = tables::held(v, s.t, s.hdr, c, 16);
            let rec = tables::cell_rec(v, s.t, s.hdr, c);
            let (s1, r1) = allocator::mark(v, s, l, rec, lo, hi, n, blk);
            r1 is Ok ==> well_taken(v, s, s1, c * 256 + lo * 16, c * 256 + hi * 16)
        }),
{
    reveal(well_taken);
    let hdr = s.hdr;
    let l = tables::held(v, s.t, hdr, c, 16);
    let rec = tables::cell_rec(v, s.t, hdr, c);
    let (s1, r1) = allocator::mark(v, s, l, rec, lo, hi, n, blk);
    if r1 is Ok {
        let rec2 = record::with_states(rec, lo, hi, CELL_FULL);
        let t1 = roottable::record_to(v, s.t, hdr.ag_num, l, rec2).0;
        assert(tables::good_ref(v, s.t, hdr, l));
        tables::lemma_record_len(v, s.t, hdr, l);
        tables::lemma_with_states(rec, lo, hi, CELL_FULL);
        tables::lemma_rec_change(v, s.t, hdr, c, rec2);
        tables::lemma_sound_hdr(v, t1, hdr, s1.hdr);
        assert forall|b: int| 0 <= b < tables::block_count(hdr) implies #[trigger] taken_at(
            v,
            s.t,
            s1.t,
            hdr,
            c * 256 + lo * 16,
            c * 256 + hi * 16,
            b,
        ) by {
            let y = tables::block_state(v, t1, hdr, b);
            let i = b % 256 / 16;
            assert(fmt::cell_at(rec2, i) == if lo <= i < hi {
                CELL_FULL
            } else {
                fmt::cell_at(rec, i)
            });
            assert((c * 256 + lo * 16 <= b < c * 256 + hi * 16) == (b / 256 == c && lo <= i
                < hi));
        }
    }
}

/// Marking blocks of a refined child.
#[verifier::rlimit(40)]
proof fn lemma_mark2(v: Vol, s: St, c: int, i: int, rec: Seq<u8>, lo: int, hi: int, n: int, blk: int)
    requires
        tables::sound(v, s.t, s.hdr),
        tables::holds(v, s.t, s.hdr, c, i),
        i < 16,
        0 <= lo <= hi <= 16,
        roottable::record_of(v, s.t, s.hdr.ag_num, tables::held(v, s.t, s.hdr, c, i)) == Ok::<
            Seq<u8>,
            FsError,
        >(rec),
    ensures
        ({
            let l = tables::held(v, s.t, s.hdr, c, i);
            let (s1, r1) = allocator::mark(v, s, l, rec, lo, hi, n, blk);
            r1 is Ok ==> well_taken(v, s, s1, c * 256 + i * 16 + lo, c * 256 + i * 16 + hi)
        }),
{
    reveal(well_taken);
    let hdr = s.hdr;
    let l = tables::held(v, s.t, hdr, c, i);
    let (s1, r1) = allocator::mark(v, s, l, rec, lo, hi, n, blk);
    if r1 is Ok {
        let rec2 = record::with_states(rec, lo, hi, CELL_FULL);
        let t1 = roottable::record_to(v, s.t, hdr.ag_num, l, rec2).0;
        assert(tables::good_ref(v, s.t, hdr, l));
        tables::lemma_record_len(v, s.t, hdr, l);
        tables::lemma_with_states(rec, lo, hi, CELL_FULL);
        tables::lemma_sub_change(v, s.t, hdr, c, i, rec2);
        tables::lemma_sound_hdr(v, t1, hdr, s1.hdr);
        lemma_sub_taken(v, s.t, t1, hdr, c, i, rec, rec2, lo, hi);
    }
}

/// A child's record replaced, seen from the blocks.
proof fn lemma_sub_taken(
    v: Vol,
    t: Map<u64, Seq<u8>>,
    t1: Map<u64, Seq<u8>>,
    hdr: AgHeader,
    c: int,
    i: int,
    rec: Seq<u8>,
    rec2: Seq<u8>,
    lo: int,
    hi: int,
)
    requires
        tables::sound(v, t, hdr),
        tables::holds(v, t, hdr, c, i),
        i < 16,
        0 <= lo <= hi <= 16,
        roottable::record_of(v, t, hdr.ag_num, tables::held(v, t, hdr, c, i)) == Ok::<
            Seq<u8>,
            FsError,
        >(rec),
        forall|b: int|
            0 <= b < tables::block_count(hdr) ==> #[trigger] tables::block_state(v, t1, hdr, b)
                == if b / 256 == c && b % 256 / 16 == i {
                Ok::<u8, FsError>(fmt::cell_at(rec2, b % 16))
            } else {
                tables::block_state(v, t, hdr, b)
            },
        forall|j: int|
            0 <= j < 16 ==> #[trigger] fmt::cell_at(rec2, j) == if lo <= j < hi {
                CELL_FULL
            } else {
                fmt::cell_at(rec, j)
            },
    ensures
        taken(v, t, t1, hdr, c * 256 + i * 16 + lo, c * 256 + i * 16 + hi),
{
    let l0 = tables::held(v, t, hdr, c, 16);
    assert(tables::holds(v, t, hdr, c, 16));
    assert(tables::good_ref(v, t, hdr, l0));
    assert forall|b: int| 0 <= b < tables::block_count(hdr) implies #[trigger] taken_at(
        v,
        t,
        t1,
        hdr,
        c * 256 + i * 16 + lo,
        c * 256 + i * 16 + hi,
        b,
    ) by {
        lemma_part(c, i, b);
        let y = tables::block_state(v, t1, hdr, b);
        if b / 256 == c && b % 256 / 16 == i {
            let j = b % 16;
            assert(fmt::cell_at(rec2, j) == if lo <= j < hi {
                CELL_FULL
            } else {
                fmt::cell_at(rec, j)
            });
            assert(tables::block_state(v, t, hdr, b) == Ok::<u8, FsError>(fmt::cell_at(rec, j)));
        }
    }
}

/// Refining, and then taking blocks of what was refined.
proof fn lemma_grown_taken(v: Vol, s: St, s1: St, s2: St, c: int, lo: int, hi: int)
    requires
        tables::same_place(s.hdr, s1.hdr),
        tables::grown(v, s.t, s1.t, s.hdr, c),
        well_taken(v, s1, s2, lo, hi),
    ensures
        well_taken(v, s, s2, lo, hi),
{
    reveal(well_taken);
    assert forall|b: int| 0 <= b < tables::block_count(s.hdr) implies #[trigger] taken_at(
        v,
        s.t,
        s2.t,
        s.hdr,
        lo,
        hi,
        b,
    ) by {
        assert(tables::grown_at(v, s.t, s1.t, s.hdr, c, b));
        assert(taken_at(v, s1.t, s2.t, s1.hdr, lo, hi, b));
        tables::lemma_state_place(v, s1.t, s.hdr, s1.hdr, b);
        tables::lemma_state_place(v, s2.t, s.hdr, s1.hdr, b);
    }
}

#[verifier::rlimit(40)]
pub proof fn lemma_alloc0_taken(v: Vol, s: St, k: int)
    requires
        tables::sound(v, s.t, s.hdr),
        1 <= k,
    ensures
        ({
            let (s1, r1) = allocator::alloc0(v, s, k);
            r1 matches Ok(blk) ==> well_taken(
                v,
                s,
                s1,
                fmt::addr_local(blk) as int,
                fmt::addr_local(blk) + k * 256,
            )
        }),
{
    reveal(well_taken);
    let cells = allocator::cells_in(s.hdr);
    let (s1, r1) = allocator::alloc0(v, s, k);
    lemma_free_cells(v, s.t, s.hdr, k, 0, 0, cells);
    if r1 is Ok {
        let c = roottable::free_cells(v, s.t, s.hdr, k, 0, 0, cells)->Ok_0->Some_0;
        let t1 = roottable::cells_to(v, s.t, s.hdr, c, c + k, CELL_FULL).0;
        tables::lemma_whole_cells(v, s.t, s.hdr, c, c + k);
        tables::lemma_sound_hdr(v, t1, s.hdr, s1.hdr);
        fmt::lemma_ceil_div(s.hdr.length as int, 256);
        fmt::law_address_halves(s.hdr.ag_num, (c * 256) as u32, 0);
        assert forall|b: int| 0 <= b < tables::block_count(s.hdr) implies #[trigger] taken_at(
            v,
            s.t,
            s1.t,
            s.hdr,
            c * 256,
            c * 256 + k * 256,
            b,
        ) by {
            let y = tables::block_state(v, t1, s.hdr, b);
        }
    }
}

/// Taking parts of a cell already refined.
#[verifier::rlimit(40)]
proof fn lemma_alloc1_room(v: Vol, s: St, c: int, start: int, m: int)
    requires
        tables::sound(v, s.t, s.hdr),
        tables::holds(v, s.t, s.hdr, c, 16),
        0 <= start,
        1 <= m,
        start + m <= 16,
    ensures
        ({
            let (s1, r1) = allocator::mark(
                v,
                s,
                tables::held(v, s.t, s.hdr, c, 16),
                tables::cell_rec(v, s.t, s.hdr, c),
                start,
                start + m,
                m * 16,
                c * 256 + start * 16,
            );
            r1 matches Ok(blk) ==> well_taken(
                v,
                s,
                s1,
                fmt::addr_local(blk) as int,
                fmt::addr_local(blk) + m * 16,
            )
        }),
{
    let blk = c * 256 + start * 16;
    let r = tables::held(v, s.t, s.hdr, c, 16);
    let rec = tables::cell_rec(v, s.t, s.hdr, c);
    lemma_mark1(v, s, c, start, start + m, m * 16, blk);
    lemma_mark(v, s, r, rec, start, start + m, m * 16, blk);
    lemma_local(s.hdr, blk);
}

/// A block of the group is named by its address.
pub proof fn lemma_local(hdr: AgHeader, b: int)
    requires
        0 <= b / 256 < allocator::cells_in(hdr),
    ensures
        fmt::addr_local(fmt::addr_of(hdr.ag_num, b as u32)) == b,
{
    fmt::lemma_ceil_div(hdr.length as int, 256);
    assert(b <= u32::MAX);
    fmt::law_address_halves(hdr.ag_num, b as u32, 0);
}

/// Taking parts of a free cell.
proof fn lemma_alloc1_fresh(v: Vol, s: St, c: int, m: int)
    requires
        tables::sound(v, s.t, s.hdr),
        1 <= m <= 16,
        0 <= c < allocator::cells_in(s.hdr),
        roottable::cell_of(v, s.t, s.hdr, c) == Ok::<u8, FsError>(CELL_FREE),
        allocator::refine0(v, s, c).1 is Ok,
    ensures
        ({
            let (s1, r1) = allocator::refine0(v, s, c);
            let r = r1->Ok_0;
            let (s2, r2) = allocator::mark(
                v,
                s1,
                r,
                fmt::zeros(128),
                0,
                m,
                m * 16,
                c * 256,
            );
            &&& roottable::record_of(v, s1.t, s1.hdr.ag_num, r) == Ok::<Seq<u8>, FsError>(
                fmt::zeros(128),
            )
            &&& r2 matches Ok(blk) ==> well_taken(
                v,
                s,
                s2,
                fmt::addr_local(blk) as int,
                fmt::addr_local(blk) + m * 16,
            )
        }),
{
    tables::lemma_refine0(v, s, c);
    let (s1, r1) = allocator::refine0(v, s, c);
    let r = r1->Ok_0;
    let rec = fmt::zeros(128);
    lemma_alloc1_room(v, s1, c, 0, m);
    lemma_mark(v, s1, r, rec, 0, m, m * 16, c * 256);
    lemma_local(s1.hdr, c * 256);
    let (s2, r2) = allocator::mark(v, s1, r, rec, 0, m, m * 16, c * 256);
    if r2 is Ok {
        lemma_grown_taken(v, s, s1, s2, c, c * 256, c * 256 + m * 16);
    }
}

pub proof fn lemma_alloc1_taken(v: Vol, s: St, m: int)
    requires
        tables::sound(v, s.t, s.hdr),
        1 <= m <= 16,
    ensures
        ({
            let (s1, r1) = allocator::alloc1(v, s, m);
            r1 matches Ok(blk) ==> well_taken(
                v,
                s,
                s1,
                fmt::addr_local(blk) as int,
                fmt::addr_local(blk) + m * 16,
            )
        }),
{
    let cells = allocator::cells_in(s.hdr);
    lemma_room1(v, s.t, s.hdr, m, 0);
    tables::lemma_first_cell(v, s.t, s.hdr, CELL_FREE, 0, cells);
    match allocator::room1(v, s.t, s.hdr, m, 0) {
        Err(_) => {},
        Ok(Some((c, r, rec, start))) => {
            assert(tables::holds(v, s.t, s.hdr, c, 16));
            lemma_alloc1_room(v, s, c, start, m);
        },
        Ok(None) => match roottable::first_cell(v, s.t, s.hdr, CELL_FREE, 0, cells) {
            None => {},
            Some(c) => {
                if allocator::refine0(v, s, c).1 is Ok {
                    lemma_alloc1_fresh(v, s, c, m);
                }
            },
        },
    }
}

/// Where `spare1` found its child.
pub proof fn lemma_spare1_at(v: Vol, t: Map<u64, Seq<u8>>, hdr: AgHeader, c: int)
    requires
        0 <= c,
    ensures
        allocator::spare1(v, t, hdr, c) matches Ok(Some((x, l0, i))) ==> {
            &&& tables::holds(v, t, hdr, x, 16)
            &&& tables::held(v, t, hdr, x, 16) == l0
            &&& 0 <= i < 16
            &&& fmt::cell_at(tables::cell_rec(v, t, hdr, x), i) == CELL_FREE
        },
    decreases allocator::cells_in(hdr) - c,
{
    if c < allocator::cells_in(hdr) {
        if let Ok(st) = roottable::cell_of(v, t, hdr, c) {
            if st != CELL_REFINED {
                lemma_spare1_at(v, t, hdr, c + 1);
            } else if let Ok(l0) = roottable::cell_ref(v, t, hdr, c) {
                if let Ok(rec) = roottable::record_of(v, t, hdr.ag_num, l0) {
                    lemma_first_in(rec, CELL_FREE, 0);
                    if record::first_in(rec, CELL_FREE, 0) is None {
                        lemma_spare1_at(v, t, hdr, c + 1);
                    }
                }
            }
        }
    }
}

/// Refining a free child and taking its first blocks.
proof fn lemma_refine_and_take(v: Vol, s: St, c: int, i: int, n: int)
    requires
        tables::sound(v, s.t, s.hdr),
        tables::holds(v, s.t, s.hdr, c, 16),
        0 <= i < 16,
        fmt::cell_at(tables::cell_rec(v, s.t, s.hdr, c), i) == CELL_FREE,
        1 <= n <= 16,
    ensures
        ({
            let blk = c * 256 + i * 16;
            let (s1, r1) = allocator::refine_and_mark(
                v,
                s,
                tables::held(v, s.t, s.hdr, c, 16),
                i,
                n,
                blk,
            );
            r1 is Ok ==> well_taken(v, s, s1, blk, blk + n)
        }),
{
    let l0 = tables::held(v, s.t, s.hdr, c, 16);
    let blk = c * 256 + i * 16;
    tables::lemma_refine1(v, s, c, i);
    let (s1, r1) = allocator::refine1(v, s, l0, i);
    if let Ok(l1) = r1 {
        let rec = fmt::zeros(128);
        lemma_mark2(v, s1, c, i, rec, 0, n, n, blk);
        let (s2, r2) = allocator::mark(v, s1, l1, rec, 0, n, n, blk);
        if r2 is Ok {
            lemma_grown_taken(v, s, s1, s2, c, blk, blk + n);
        }
    }
}

/// Taking blocks where there is room for them.
#[verifier::rlimit(40)]
proof fn lemma_alloc2_room(v: Vol, s: St, n: int)
    requires
        tables::sound(v, s.t, s.hdr),
        1 <= n <= 16,
        allocator::room2(v, s.t, s.hdr, n, 0) matches Ok(Some(_)),
    ensures
        ({
            let (blk, l1, rec, start) = allocator::room2(v, s.t, s.hdr, n, 0)->Ok_0->Some_0;
            let (s1, r1) = allocator::mark(v, s, l1, rec, start, start + n, n, blk);
            r1 matches Ok(x) ==> well_taken(
                v,
                s,
                s1,
                fmt::addr_local(x) as int,
                fmt::addr_local(x) + n,
            )
        }),
{
    let (blk, l1, rec, start) = allocator::room2(v, s.t, s.hdr, n, 0)->Ok_0->Some_0;
    let (d, i) = lemma_room2_at(v, s.t, s.hdr, n, 0);
    lemma_mark2(v, s, d, i, rec, start, start + n, n, blk);
    lemma_mark(v, s, l1, rec, start, start + n, n, blk);
    lemma_local(s.hdr, blk);
}

/// Taking blocks of a free part of a refined cell.
proof fn lemma_alloc2_part(v: Vol, s: St, c: int, i: int, n: int)
    requires
        tables::sound(v, s.t, s.hdr),
        tables::holds(v, s.t, s.hdr, c, 16),
        0 <= i < 16,
        fmt::cell_at(tables::cell_rec(v, s.t, s.hdr, c), i) == CELL_FREE,
        1 <= n <= 16,
    ensures
        ({
            let (s1, r1) = allocator::refine_and_mark(
                v,
                s,
                tables::held(v, s.t, s.hdr, c, 16),
                i,
                n,
                c * 256 + i * 16,
            );
            r1 matches Ok(x) ==> x == fmt::addr_of(s.hdr.ag_num, (c * 256 + i * 16) as u32)
                && fmt::addr_local(x) == c * 256 + i * 16 && well_taken(
                v,
                s,
                s1,
                c * 256 + i * 16,
                c * 256 + i * 16 + n,
            )
        }),
{
    lemma_refine_and_take(v, s, c, i, n);
    lemma_refine_and_mark(v, s, tables::held(v, s.t, s.hdr, c, 16), i, n, c * 256 + i * 16);
    lemma_local(s.hdr, c * 256 + i * 16);
}

/// Taking blocks of a free cell.
proof fn lemma_alloc2_fresh(v: Vol, s: St, c: int, n: int)
    requires
        tables::sound(v, s.t, s.hdr),
        1 <= n <= 16,
        0 <= c < allocator::cells_in(s.hdr),
        roottable::cell_of(v, s.t, s.hdr, c) == Ok::<u8, FsError>(CELL_FREE),
        allocator::refine0(v, s, c).1 is Ok,
    ensures
        ({
            let (s1, r1) = allocator::refine0(v, s, c);
            let (s2, r2) = allocator::refine_and_mark(v, s1, r1->Ok_0, 0, n, c * 256);
            r2 matches Ok(x) ==> well_taken(
                v,
                s,
                s2,
                fmt::addr_local(x) as int,
                fmt::addr_local(x) + n,
            )
        }),
{
    tables::lemma_refine0(v, s, c);
    let (s1, r1) = allocator::refine0(v, s, c);
    let l0 = r1->Ok_0;
    assert(fmt::cell_at(fmt::zeros(128), 0) == CELL_FREE);
    lemma_alloc2_part(v, s1, c, 0, n);
    let (s2, r2) = allocator::refine_and_mark(v, s1, l0, 0, n, c * 256);
    if r2 is Ok {
        lemma_grown_taken(v, s, s1, s2, c, c * 256, c * 256 + n);
    }
}

pub proof fn lemma_alloc2_taken(v: Vol, s: St, n: int)
    requires
        tables::sound(v, s.t, s.hdr),
        1 <= n <= 16,
    ensures
        ({
            let (s1, r1) = allocator::alloc2(v, s, n);
            r1 matches Ok(blk) ==> well_taken(
                v,
                s,
                s1,
                fmt::addr_local(blk) as int,
                fmt::addr_local(blk) + n,
            )
        }),
{
    let cells = allocator::cells_in(s.hdr);
    match allocator::room2(v, s.t, s.hdr, n, 0) {
        Err(_) => {},
        Ok(Some((blk, l1, rec, start))) => {
            lemma_alloc2_room(v, s, n);
        },
        Ok(None) => {
            lemma_spare1_at(v, s.t, s.hdr, 0);
            match allocator::spare1(v, s.t, s.hdr, 0) {
                Err(_) => {},
                Ok(Some((c, l0, i))) => {
                    lemma_alloc2_part(v, s, c, i, n);
                },
                Ok(None) => {
                    tables::lemma_first_cell(v, s.t, s.hdr, CELL_FREE, 0, cells);
                    match roottable::first_cell(v, s.t, s.hdr, CELL_FREE, 0, cells) {
                        None => {},
                        Some(c) => {
                            if allocator::refine0(v, s, c).1 is Ok {
                                lemma_alloc2_fresh(v, s, c, n);
                            }
                        },
                    }
                },
            }
        },
    }
}

/// How many blocks an allocation of `n` takes: whole cells from 256 blocks on,
/// whole parts of a cell from 17 on.
pub open spec fn granted(n: int) -> int {
    if n >= 256 {
        fmt::ceil_div(n, 256) * 256
    } else if n > 16 {
        fmt::ceil_div(n, 16) * 16
    } else {
        n
    }
}

/// At least what was asked for is granted.
pub proof fn lemma_granted(n: int)
    requires
        1 <= n,
    ensures
        granted(n) >= n,
{
    fmt::lemma_ceil_div(n, 256);
    fmt::lemma_ceil_div(n, 16);
}

/// An allocation leaves the tables where they are.
pub proof fn lemma_alloc_place(v: Vol, s: St, n: int)
    requires
        1 <= n,
        tables::sound(v, s.t, s.hdr),
        allocator::alloc_some(v, s, n).1 is Ok,
    ensures
        tables::same_place(s.hdr, allocator::alloc_some(v, s, n).0.hdr),
{
    reveal(well_taken);
    if n >= 256 {
        fmt::lemma_ceil_div(n, 256);
        lemma_alloc0_taken(v, s, fmt::ceil_div(n, 256));
    } else if n > 16 {
        fmt::lemma_ceil_div(n, 16);
        lemma_alloc1_taken(v, s, fmt::ceil_div(n, 16));
    } else {
        lemma_alloc2_taken(v, s, n);
    }
}

pub proof fn lemma_some_taken(v: Vol, s: St, n: int)
    requires
        tables::sound(v, s.t, s.hdr),
        1 <= n,
        allocator::alloc_some(v, s, n).1 is Ok,
    ensures
        ({
            let (s1, r1) = allocator::alloc_some(v, s, n);
            let b = fmt::addr_local(r1->Ok_0) as int;
            well_taken(v, s, s1, b, b + granted(n))
        }),
{
    if n >= 256 {
        fmt::lemma_ceil_div(n, 256);
        lemma_alloc0_taken(v, s, fmt::ceil_div(n, 256));
    } else if n > 16 {
        fmt::lemma_ceil_div(n, 16);
        lemma_alloc1_taken(v, s, fmt::ceil_div(n, 16));
    } else {
        lemma_alloc2_taken(v, s, n);
    }
}

/// An allocation from sound tables leaves sound tables, in which the blocks
/// that it granted are in use and every other block is as it was, but for free
/// blocks reserved for the tables themselves.
#[verifier::rlimit(40)]
pub proof fn law_allocation_marks_its_blocks(v: Vol, p: Pool, ag: u32, hdr: AgHeader, n: int)
    requires
        1 <= n,
        fs::header_of(v, p.t, ag) == Ok::<AgHeader, FsError>(hdr),
        hdr.ag_num == ag,
        tables::sound(v, p.t, hdr),
    ensures
        allocator::allocated(v, p, ag, n).1 matches Ok(blk) ==> {
            let t1 = allocator::allocated(v, p, ag, n).0.t;
            let b = fmt::addr_local(blk) as int;
            &&& fs::header_of(v, t1, ag) matches Ok(hdr1) && tables::same_place(hdr, hdr1)
                && tables::sound(v, t1, hdr1)
            &&& taken(v, p.t, t1, hdr, b, b + granted(n))
        },
{
    reveal(well_taken);
    reveal(allocator::allocated);
    let s = allocator::with_hdr(p, hdr);
    let (s1, r1) = allocator::alloc_some(v, s, n);
    if r1 is Ok {
        lemma_some_taken(v, s, n);
    }
    if r1 is Ok {
        let b = fmt::addr_local(r1->Ok_0) as int;
        let hi = b + granted(n);
        assert(well_taken(v, s, s1, b, hi));
        if allocator::header_to(s1, v.bs).1 is Ok {
            tables::lemma_header_to(v, s1);
            let s2 = allocator::header_to(s1, v.bs).0;
            assert forall|x: int| 0 <= x < tables::block_count(hdr) implies #[trigger] taken_at(
                v,
                p.t,
                s2.t,
                hdr,
                b,
                hi,
                x,
            ) by {
                assert(taken_at(v, s.t, s1.t, s.hdr, b, hi, x));
                assert(tables::block_state(v, s2.t, s1.hdr, x) == tables::block_state(
                    v,
                    s1.t,
                    s1.hdr,
                    x,
                ));
                tables::lemma_state_place(v, s2.t, hdr, s1.hdr, x);
                tables::lemma_state_place(v, s1.t, hdr, s1.hdr, x);
            }
        }
    }
}

// --- freeing ------------------------------------------------------------------

/// What freeing does to block `b`: one of `lo` to `hi` was in use and is free;
/// every other keeps its state.
pub open spec fn given_at(
    v: Vol,
    t: Map<u64, Seq<u8>>,
    t1: Map<u64, Seq<u8>>,
    hdr: AgHeader,
    lo: int,
    hi: int,
    b: int,
) -> bool {
    let x = tables::block_state(v, t, hdr, b);
    let y = tables::block_state(v, t1, hdr, b);
    if lo <= b < hi {
        x == Ok::<u8, FsError>(CELL_FULL) && y == Ok::<u8, FsError>(CELL_FREE)
    } else {
        y == x
    }
}

/// What freeing does to the blocks of the group.
pub open spec fn given(
    v: Vol,
    t: Map<u64, Seq<u8>>,
    t1: Map<u64, Seq<u8>>,
    hdr: AgHeader,
    lo: int,
    hi: int,
) -> bool {
    forall|b: int|
        0 <= b < tables::block_count(hdr) ==> #[trigger] given_at(v, t, t1, hdr, lo, hi, b)
}

/// What freeing leaves: sound tables that are coarser, and blocks `lo` to `hi` free.
#[verifier::opaque]
pub open spec fn well_given(v: Vol, s: St, s1: St, lo: int, hi: int) -> bool {
    &&& tables::same_place(s.hdr, s1.hdr)
    &&& tables::sound(v, s1.t, s1.hdr)
    &&& given(v, s.t, s1.t, s.hdr, lo, hi)
    &&& tables::coarser(v, s.t, s1.t, s.hdr)
}

/// Freeing a whole part of a cell.
#[verifier::rlimit(40)]
proof fn lemma_free_part(v: Vol, s: St, c: int, i: int)
    requires
        tables::sound(v, s.t, s.hdr),
        tables::holds(v, s.t, s.hdr, c, 16),
        0 <= i < 16,
        fmt::cell_at(tables::cell_rec(v, s.t, s.hdr, c), i) == CELL_FULL,
    ensures
        ({
            let l0 = tables::held(v, s.t, s.hdr, c, 16);
            let rec = fmt::cell_put(tables::cell_rec(v, s.t, s.hdr, c), i, CELL_FREE);
            let (t1, r1) = roottable::record_to(v, s.t, s.hdr.ag_num, l0, rec);
            let (s2, r2) = allocator::give(St { t: t1, ..s }, 16);
            r1 is Ok && r2 is Ok ==> {
                &&& well_given(v, s, s2, c * 256 + i * 16, c * 256 + i * 16 + 16)
                &&& tables::holds(v, s2.t, s2.hdr, c, 16)
                &&& tables::held(v, s2.t, s2.hdr, c, 16) == l0
            }
        }),
{
    reveal(well_given);
    let hdr = s.hdr;
    let l0 = tables::held(v, s.t, hdr, c, 16);
    let old_rec = tables::cell_rec(v, s.t, hdr, c);
    let rec = fmt::cell_put(old_rec, i, CELL_FREE);
    let (t1, r1) = roottable::record_to(v, s.t, hdr.ag_num, l0, rec);
    let (s2, r2) = allocator::give(St { t: t1, ..s }, 16);
    if r1 is Ok && r2 is Ok {
        assert(tables::good_ref(v, s.t, hdr, l0));
        tables::lemma_record_len(v, s.t, hdr, l0);
        tables::lemma_rec_fields(old_rec, i, CELL_FREE, (0, 0));
        assert(tables::fills_none(old_rec, rec)) by {
            assert forall|j: int|
                0 <= j < 16 && #[trigger] fmt::cell_at(rec, j) == CELL_FULL implies fmt::cell_at(
                old_rec,
                j,
            ) == CELL_FULL by {
                assert(fmt::cell_at(rec, j) == if j == i {
                    CELL_FREE
                } else {
                    fmt::cell_at(old_rec, j)
                });
            }
        }
        tables::lemma_rec_change(v, s.t, hdr, c, rec);
        tables::lemma_sound_hdr(v, t1, hdr, s2.hdr);
        tables::lemma_same_place(v, t1, hdr, s2.hdr);
        assert forall|b: int| 0 <= b < tables::block_count(hdr) implies #[trigger] given_at(
            v,
            s.t,
            s2.t,
            hdr,
            c * 256 + i * 16,
            c * 256 + i * 16 + 16,
            b,
        ) by {
            lemma_part(c, i, b);
            let y = tables::block_state(v, t1, hdr, b);
            let k = b % 256 / 16;
            assert(fmt::cell_at(rec, k) == if k == i {
                CELL_FREE
            } else {
                fmt::cell_at(old_rec, k)
            });
        }
    }
}

/// Freeing one block of a refined part.
#[verifier::rlimit(40)]
proof fn lemma_free_block(v: Vol, s: St, c: int, i: int, sub: Seq<u8>, j: int)
    requires
        tables::sound(v, s.t, s.hdr),
        tables::holds(v, s.t, s.hdr, c, i),
        i < 16,
        0 <= j < 16,
        roottable::record_of(v, s.t, s.hdr.ag_num, tables::held(v, s.t, s.hdr, c, i)) == Ok::<
            Seq<u8>,
            FsError,
        >(sub),
        fmt::cell_at(sub, j) == CELL_FULL,
    ensures
        ({
            let (s1, r1) = allocator::give(s, 1);
            let l0 = tables::held(v, s.t, s.hdr, c, 16);
            let (t2, r2) = allocator::coarsen1(
                v,
                s1.t,
                s.hdr.ag_num,
                l0,
                tables::cell_rec(v, s.t, s.hdr, c),
                i,
                tables::held(v, s.t, s.hdr, c, i),
                fmt::cell_put(sub, j, CELL_FREE),
            );
            let s2 = St { t: t2, ..s1 };
            r1 is Ok && r2 is Ok ==> {
                &&& well_given(v, s, s2, c * 256 + i * 16 + j, c * 256 + i * 16 + j + 1)
                &&& tables::holds(v, s2.t, s2.hdr, c, 16)
                &&& tables::held(v, s2.t, s2.hdr, c, 16) == l0
            }
        }),
{
    reveal(well_given);
    let hdr = s.hdr;
    let (s1, r1) = allocator::give(s, 1);
    let l0 = tables::held(v, s.t, hdr, c, 16);
    let l1 = tables::held(v, s.t, hdr, c, i);
    let rec = tables::cell_rec(v, s.t, hdr, c);
    let sub2 = fmt::cell_put(sub, j, CELL_FREE);
    let (t2, r2) = allocator::coarsen1(v, s1.t, hdr.ag_num, l0, rec, i, l1, sub2);
    let s2 = St { t: t2, ..s1 };
    if r1 is Ok && r2 is Ok {
        assert(tables::holds(v, s.t, hdr, c, 16));
        assert(tables::good_ref(v, s.t, hdr, l0));
        assert(tables::good_ref(v, s.t, hdr, l1));
        tables::lemma_record_len(v, s.t, hdr, l1);
        tables::lemma_rec_fields(sub, j, CELL_FREE, (0, 0));
        if record::all_in(sub2, CELL_FREE) {
            tables::lemma_unrefine1(v, s.t, hdr, c, i);
        } else {
            tables::lemma_sub_change(v, s.t, hdr, c, i, sub2);
            tables::lemma_sub_keeps(v, s.t, hdr, c, i, sub2);
        }
        tables::lemma_sound_hdr(v, t2, hdr, s2.hdr);
        tables::lemma_same_place(v, t2, hdr, s2.hdr);
        assert forall|b: int| 0 <= b < tables::block_count(hdr) implies #[trigger] given_at(
            v,
            s.t,
            s2.t,
            hdr,
            c * 256 + i * 16 + j,
            c * 256 + i * 16 + j + 1,
            b,
        ) by {
            lemma_part(c, i, b);
            let y = tables::block_state(v, t2, hdr, b);
            if b / 256 == c && b % 256 / 16 == i {
                let k = b % 16;
                assert(fmt::cell_at(sub2, k) == if k == j {
                    CELL_FREE
                } else {
                    fmt::cell_at(sub, k)
                });
                assert(tables::block_state(v, s.t, hdr, b) == Ok::<u8, FsError>(
                    fmt::cell_at(sub, k),
                ));
            }
        }
    }
}

/// Freeing in a refined cell.
#[verifier::rlimit(40)]
pub proof fn lemma_free_inside(v: Vol, s: St, local: u32)
    requires
        tables::sound(v, s.t, s.hdr),
        tables::holds(v, s.t, s.hdr, local as int / 256, 16),
    ensures
        ({
            let c = local as int / 256;
            let l0 = tables::held(v, s.t, s.hdr, c, 16);
            let (s1, r1) = allocator::free_inside(
                v,
                s,
                s.hdr.ag_num,
                local,
                l0,
                tables::cell_rec(v, s.t, s.hdr, c),
            );
            r1 matches Ok(k) ==> {
                &&& k == tables::unit(v, s.t, s.hdr, local as int)
                &&& local as int % k == 0
                &&& well_given(v, s, s1, local as int, local + k)
                &&& tables::holds(v, s1.t, s1.hdr, c, 16)
                &&& tables::held(v, s1.t, s1.hdr, c, 16) == l0
            }
        }),
{
    reveal(tables::unit);
    let c = local as int / 256;
    let i = (local % 256 / 16) as int;
    let j = (local % 16) as int;
    let l0 = tables::held(v, s.t, s.hdr, c, 16);
    let rec = tables::cell_rec(v, s.t, s.hdr, c);
    lemma_part(c, i, local as int);
    let st = fmt::cell_at(rec, i);
    if st == CELL_FULL {
        lemma_free_part(v, s, c, i);
    } else if st == CELL_REFINED {
        assert(tables::holds(v, s.t, s.hdr, c, i));
        let l1 = tables::held(v, s.t, s.hdr, c, i);
        if let Ok(sub) = roottable::record_of(v, s.t, s.hdr.ag_num, l1) {
            if fmt::cell_at(sub, j) == CELL_FULL {
                lemma_free_block(v, s, c, i, sub, j);
            }
        }
    }
}

/// Collapsing a cell after that changes no block.
proof fn lemma_given_coarsened(v: Vol, s: St, s1: St, c: int, lo: int, hi: int)
    requires
        well_given(v, s, s1, lo, hi),
        tables::holds(v, s1.t, s1.hdr, c, 16),
    ensures
        ({
            let (s2, r2) = allocator::coarsen0(
                v,
                s1,
                s1.hdr.ag_num,
                c,
                tables::held(v, s1.t, s1.hdr, c, 16),
            );
            r2 is Ok ==> well_given(v, s, s2, lo, hi)
        }),
{
    reveal(well_given);
    let (s2, r2) = allocator::coarsen0(
        v,
        s1,
        s1.hdr.ag_num,
        c,
        tables::held(v, s1.t, s1.hdr, c, 16),
    );
    if r2 is Ok {
        tables::lemma_unrefine0(v, s1, c);
        tables::lemma_coarser_place(v, s1.t, s2.t, s1.hdr, s.hdr);
        tables::lemma_coarser_more(v, s.t, s1.t, s2.t, s.hdr);
        assert forall|b: int| 0 <= b < tables::block_count(s.hdr) implies #[trigger] given_at(
            v,
            s.t,
            s2.t,
            s.hdr,
            lo,
            hi,
            b,
        ) by {
            assert(given_at(v, s.t, s1.t, s.hdr, lo, hi, b));
            assert(tables::block_state(v, s2.t, s1.hdr, b) == tables::block_state(
                v,
                s1.t,
                s1.hdr,
                b,
            ));
            tables::lemma_state_place(v, s2.t, s.hdr, s1.hdr, b);
            tables::lemma_state_place(v, s1.t, s.hdr, s1.hdr, b);
        }
    }
}

/// Freeing a whole cell.
proof fn lemma_free_cell(v: Vol, s: St, c: int)
    requires
        tables::sound(v, s.t, s.hdr),
        0 <= c < allocator::cells_in(s.hdr),
        roottable::cell_of(v, s.t, s.hdr, c) == Ok::<u8, FsError>(CELL_FULL),
    ensures
        ({
            let (t1, r1) = roottable::cell_to(v, s.t, s.hdr, c, CELL_FREE);
            let (s2, r2) = allocator::give(St { t: t1, ..s }, 256);
            r1 is Ok && r2 is Ok ==> well_given(v, s, s2, c * 256, c * 256 + 256)
        }),
{
    reveal(well_given);
    let hdr = s.hdr;
    let (t1, r1) = roottable::cell_to(v, s.t, hdr, c, CELL_FREE);
    let (s2, r2) = allocator::give(St { t: t1, ..s }, 256);
    if r1 is Ok && r2 is Ok {
        tables::lemma_whole_cell(v, s.t, hdr, c, CELL_FREE);
        tables::lemma_sound_hdr(v, t1, hdr, s2.hdr);
        assert forall|b: int| 0 <= b < tables::block_count(hdr) implies #[trigger] given_at(
            v,
            s.t,
            s2.t,
            hdr,
            c * 256,
            c * 256 + 256,
            b,
        ) by {
            let y = tables::block_state(v, t1, hdr, b);
        }
    }
}

/// Freeing what starts at a block.
#[verifier::rlimit(40)]
pub proof fn lemma_free_one(v: Vol, s: St, local: u32)
    requires
        tables::sound(v, s.t, s.hdr),
        local as int / 256 < allocator::cells_in(s.hdr),
    ensures
        ({
            let (s1, r1) = allocator::free_one(v, s, s.hdr.ag_num, local);
            r1 matches Ok(k) ==> {
                &&& k == tables::unit(v, s.t, s.hdr, local as int)
                &&& local as int % k == 0
                &&& well_given(v, s, s1, local as int, local + k)
            }
        }),
{
    reveal(tables::unit);
    reveal(allocator::free_one);
    let c = local as int / 256;
    let hdr = s.hdr;
    let st = roottable::cell_of(v, s.t, hdr, c);
    if st == Ok::<u8, FsError>(CELL_FULL) {
        lemma_free_cell(v, s, c);
    } else if st == Ok::<u8, FsError>(CELL_REFINED) {
        assert(tables::holds(v, s.t, hdr, c, 16));
        assert(tables::good_ref(v, s.t, hdr, tables::held(v, s.t, hdr, c, 16)));
        lemma_free_inside(v, s, local);
        let l0 = tables::held(v, s.t, hdr, c, 16);
        let (s1, r1) = allocator::free_inside(
            v,
            s,
            hdr.ag_num,
            local,
            l0,
            tables::cell_rec(v, s.t, hdr, c),
        );
        if let Ok(k) = r1 {
            assert(s1.hdr.ag_num == hdr.ag_num) by {
                reveal(well_given);
            }
            lemma_given_coarsened(v, s, s1, c, local as int, local + k);
        }
    }
}

/// Freeing goes on where it stopped.
pub proof fn lemma_given_more(v: Vol, s: St, s1: St, s2: St, lo: int, mid: int, hi: int)
    requires
        well_given(v, s, s1, lo, mid),
        well_given(v, s1, s2, mid, hi),
        lo <= mid <= hi,
    ensures
        well_given(v, s, s2, lo, hi),
{
    reveal(well_given);
    tables::lemma_coarser_place(v, s1.t, s2.t, s1.hdr, s.hdr);
    tables::lemma_coarser_more(v, s.t, s1.t, s2.t, s.hdr);
    assert forall|b: int| 0 <= b < tables::block_count(s.hdr) implies #[trigger] given_at(
        v,
        s.t,
        s2.t,
        s.hdr,
        lo,
        hi,
        b,
    ) by {
        assert(given_at(v, s.t, s1.t, s.hdr, lo, mid, b));
        assert(given_at(v, s1.t, s2.t, s1.hdr, mid, hi, b));
        tables::lemma_state_place(v, s1.t, s.hdr, s1.hdr, b);
        tables::lemma_state_place(v, s2.t, s.hdr, s1.hdr, b);
    }
}

/// Where freeing `n` blocks from block `b` on ends: with the smallest cell around the
/// last of them.
pub open spec fn freed_end(v: Vol, t: Map<u64, Seq<u8>>, hdr: AgHeader, b: int, n: int) -> int {
    if n <= 0 {
        b
    } else {
        tables::unit_end(v, t, hdr, b + n - 1)
    }
}

/// The cell that was freed holds the last block.
pub proof fn lemma_last_unit(v: Vol, t: Map<u64, Seq<u8>>, hdr: AgHeader, b: int, y: int)
    requires
        0 <= b <= y < b + tables::unit(v, t, hdr, b),
        b % tables::unit(v, t, hdr, b) == 0,
    ensures
        tables::unit_end(v, t, hdr, y) == b + tables::unit(v, t, hdr, b),
{
    reveal(tables::unit_end);
    let k = tables::unit(v, t, hdr, b);
    assert(k == 1 || k == 16 || k == 256) by {
        reveal(tables::unit);
    }
    assert(y / k == b / k && (b / k + 1) * k == b + k) by {
        if k == 16 {
            assert(b % 16 == 0);
        } else if k == 256 {
            assert(b % 256 == 0);
        }
    }
    tables::lemma_unit_even(v, t, hdr, b, y);
}

/// `k` blocks went from the used ones to the free ones, in the group and on the
/// volume, and no reserved one with them.
pub open spec fn returned(s: St, s1: St, k: int) -> bool {
    &&& s1.hdr.full_blocks == s.hdr.full_blocks - k
    &&& s1.hdr.free_blocks == s.hdr.free_blocks + k
    &&& s1.hdr.rsvd_blocks == s.hdr.rsvd_blocks
    &&& s1.full == s.full - k
    &&& s1.free == s.free + k
    &&& s1.rsvd == s.rsvd
}

pub proof fn lemma_one_returned(v: Vol, s: St, ag: u32, local: u32)
    ensures
        ({
            let (s1, r1) = allocator::free_one(v, s, ag, local);
            r1 matches Ok(k) ==> returned(s, s1, k)
        }),
{
    reveal(allocator::free_one);
}

/// Freeing from a block on: where it ends.
#[verifier::rlimit(30)]
#[verifier::spinoff_prover]
pub proof fn lemma_free_from(v: Vol, s: St, local0: u32, cur: int, n: int) -> (end: int)
    requires
        tables::sound(v, s.t, s.hdr),
        0 <= cur,
        local0 + n <= tables::block_count(s.hdr),
    ensures
        ({
            let (s1, r1) = allocator::free_from(v, s, s.hdr.ag_num, local0, cur, n);
            r1 is Ok ==> {
                &&& end >= cur
                &&& end >= n
                &&& local0 + end == if cur < n {
                    freed_end(v, s.t, s.hdr, local0 as int, n)
                } else {
                    local0 + cur
                }
                &&& well_given(v, s, s1, local0 + cur, local0 + end)
                &&& returned(s, s1, end - cur)
            }
        }),
    decreases
            if cur < n {
                n - cur
            } else {
                0
            },
{
    if cur >= n {
        lemma_given_nothing(v, s, local0 + cur);
        cur
    } else if local0 + cur > u32::MAX {
        cur
    } else {
        let local = (local0 + cur) as u32;
        let y = local0 + n - 1;
        assert(local as int / 256 < allocator::cells_in(s.hdr));
        lemma_free_one(v, s, local);
        lemma_one_returned(v, s, s.hdr.ag_num, local);
        let (s1, r1) = allocator::free_one(v, s, s.hdr.ag_num, local);
        if r1 is Ok {
            let k = r1->Ok_0;
            assert(k > 0) by {
                reveal(tables::unit);
            }
            assert(tables::sound(v, s1.t, s1.hdr) && tables::same_place(s.hdr, s1.hdr)
                && tables::coarser(v, s.t, s1.t, s.hdr)) by {
                reveal(well_given);
            }
            let end = lemma_free_from(v, s1, local0, cur + k, n);
            let (s2, r2) = allocator::free_from(v, s1, s.hdr.ag_num, local0, cur + k, n);
            if r2 is Ok {
                lemma_given_more(v, s, s1, s2, local0 + cur, local0 + cur + k, local0 + end);
                if cur + k >= n {
                    lemma_last_unit(v, s.t, s.hdr, local as int, y);
                } else {
                    assert(given_at(v, s1.t, s2.t, s1.hdr, local0 + cur + k, local0 + end, y)) by {
                        reveal(well_given);
                    }
                    tables::lemma_state_place(v, s1.t, s.hdr, s1.hdr, y);
                    tables::lemma_unit_place(v, s1.t, s.hdr, s1.hdr, y);
                    tables::lemma_unit_kept(v, s.t, s1.t, s.hdr, y);
                    assert(tables::unit_end(v, s1.t, s.hdr, y) == tables::unit_end(
                        v,
                        s.t,
                        s.hdr,
                        y,
                    )) by {
                        reveal(tables::unit_end);
                    }
                }
            }
            end
        } else {
            cur
        }
    }
}

/// Freeing nothing.
pub proof fn lemma_given_nothing(v: Vol, s: St, lo: int)
    requires
        tables::sound(v, s.t, s.hdr),
    ensures
        well_given(v, s, s, lo, lo),
{
    reveal(well_given);
    reveal(tables::coarser);
}

/// Freeing `n` blocks in sound tables leaves sound tables, in which these (and
/// the rest of the smallest cell around the last of them) were in use and are free,
/// and every other block is as it was.
pub proof fn law_freeing_frees_its_blocks(v: Vol, p: Pool, blk: u64, hdr: AgHeader, n: int)
    requires
        0 <= n,
        fs::header_of(v, p.t, fmt::addr_ag(blk)) == Ok::<AgHeader, FsError>(hdr),
        hdr.ag_num == fmt::addr_ag(blk),
        tables::sound(v, p.t, hdr),
        fmt::addr_local(blk) + n <= tables::block_count(hdr),
    ensures
        allocator::freed(v, p, blk, n).1 is Ok ==> {
            let t1 = allocator::freed(v, p, blk, n).0.t;
            let b = fmt::addr_local(blk) as int;
            &&& fs::header_of(v, t1, hdr.ag_num) matches Ok(hdr1) && tables::same_place(hdr, hdr1)
                && tables::sound(v, t1, hdr1)
            &&& freed_end(v, p.t, hdr, b, n) >= b + n
            &&& given(v, p.t, t1, hdr, b, freed_end(v, p.t, hdr, b, n))
            &&& tables::coarser(v, p.t, t1, hdr)
        },
{
    reveal(allocator::freed);
    let s = allocator::with_hdr(p, hdr);
    let local = fmt::addr_local(blk);
    let end = lemma_free_from(v, s, local, 0, n);
    let (s1, r1) = allocator::free_from(v, s, hdr.ag_num, local, 0, n);
    if r1 is Ok && allocator::header_to(s1, v.bs).1 is Ok {
        reveal(well_given);
        tables::lemma_header_to(v, s1);
        let s2 = allocator::header_to(s1, v.bs).0;
        tables::lemma_form_coarser(v, s1.t, s2.t, s1.hdr);
        tables::lemma_coarser_place(v, s1.t, s2.t, s1.hdr, hdr);
        tables::lemma_coarser_more(v, p.t, s1.t, s2.t, hdr);
        assert forall|x: int| 0 <= x < tables::block_count(hdr) implies #[trigger] given_at(
            v,
            p.t,
            s2.t,
            hdr,
            local as int,
            local + end,
            x,
        ) by {
            assert(given_at(v, s.t, s1.t, s.hdr, local as int, local + end, x));
            assert(tables::block_state(v, s2.t, s1.hdr, x) == tables::block_state(
                v,
                s1.t,
                s1.hdr,
                x,
            ));
            tables::lemma_state_place(v, s2.t, hdr, s1.hdr, x);
            tables::lemma_state_place(v, s1.t, hdr, s1.hdr, x);
        }
        assert(local + end == freed_end(v, p.t, hdr, local as int, n));
    }
}

// --- counters -----------------------------------------------------------------

/// `k` more blocks are counted as used, in the group and on the volume, and
/// neither gained or lost blocks. No reserved block was given up, and the group's
/// generation is what it was.
pub open spec fn balanced(s: St, s1: St, k: int) -> bool {
    &&& s1.hdr.gen == s.hdr.gen
    &&& s1.hdr.rsvd_blocks >= s.hdr.rsvd_blocks
    &&& s1.rsvd >= s.rsvd
    &&& s1.hdr.full_blocks == s.hdr.full_blocks + k
    &&& s1.hdr.free_blocks + s1.hdr.rsvd_blocks + s1.hdr.full_blocks == s.hdr.free_blocks
        + s.hdr.rsvd_blocks + s.hdr.full_blocks
    &&& s1.full == s.full + k
    &&& s1.free + s1.rsvd + s1.full == s.free + s.rsvd + s.full
}

proof fn lemma_claim_balanced(v: Vol, s: St)
    ensures
        balanced(s, allocator::claim_rec(v, s).0, 0),
{
}

proof fn lemma_refine0_balanced(v: Vol, s: St, c: int)
    ensures
        balanced(s, allocator::refine0(v, s, c).0, 0),
{
    lemma_claim_balanced(
        v,
        St { t: roottable::cell_to(v, s.t, s.hdr, c, CELL_REFINED).0, ..s },
    );
}

proof fn lemma_refine_and_mark_balanced(v: Vol, s: St, l0: (u32, u16), i: int, n: int, blk: int)
    requires
        0 <= n,
    ensures
        ({
            let (s1, r1) = allocator::refine_and_mark(v, s, l0, i, n, blk);
            r1 is Ok ==> balanced(s, s1, n)
        }),
{
    lemma_claim_balanced(v, s);
    let (s1, r1) = allocator::refine1(v, s, l0, i);
    assert(balanced(s, s1, 0));
    if let Ok(l1) = r1 {
        if let Ok(rec) = roottable::record_of(v, s1.t, s1.hdr.ag_num, l1) {
            lemma_mark_balanced(v, s1, l1, rec, 0, n, n, blk);
        }
    }
}

proof fn lemma_mark_balanced(
    v: Vol,
    s: St,
    r: (u32, u16),
    rec: Seq<u8>,
    lo: int,
    hi: int,
    n: int,
    blk: int,
)
    requires
        0 <= n,
    ensures
        ({
            let (s1, r1) = allocator::mark(v, s, r, rec, lo, hi, n, blk);
            r1 is Ok ==> balanced(s, s1, n)
        }),
{
}

proof fn lemma_alloc1_balanced(v: Vol, s: St, m: int)
    requires
        0 <= m,
    ensures
        ({
            let (s1, r1) = allocator::alloc1(v, s, m);
            r1 is Ok ==> balanced(s, s1, m * 16)
        }),
{
    match allocator::room1(v, s.t, s.hdr, m, 0) {
        Err(_) => {},
        Ok(Some((c, r, rec, start))) => {
            lemma_mark_balanced(v, s, r, rec, start, start + m, m * 16, c * 256 + start * 16);
        },
        Ok(None) => match roottable::first_cell(
            v,
            s.t,
            s.hdr,
            CELL_FREE,
            0,
            allocator::cells_in(s.hdr),
        ) {
            None => {},
            Some(c) => {
                lemma_refine0_balanced(v, s, c);
                let (s1, r1) = allocator::refine0(v, s, c);
                if let Ok(r) = r1 {
                    if let Ok(rec) = roottable::record_of(v, s1.t, s1.hdr.ag_num, r) {
                        lemma_mark_balanced(v, s1, r, rec, 0, m, m * 16, c * 256);
                    }
                }
            },
        },
    }
}

proof fn lemma_alloc2_balanced(v: Vol, s: St, n: int)
    requires
        0 <= n,
    ensures
        ({
            let (s1, r1) = allocator::alloc2(v, s, n);
            r1 is Ok ==> balanced(s, s1, n)
        }),
{
    match allocator::room2(v, s.t, s.hdr, n, 0) {
        Err(_) => {},
        Ok(Some((blk, l1, rec, start))) => {
            lemma_mark_balanced(v, s, l1, rec, start, start + n, n, blk);
        },
        Ok(None) => match allocator::spare1(v, s.t, s.hdr, 0) {
            Err(_) => {},
            Ok(Some((c, l0, i))) => {
                lemma_refine_and_mark_balanced(v, s, l0, i, n, c * 256 + i * 16);
            },
            Ok(None) => match roottable::first_cell(
                v,
                s.t,
                s.hdr,
                CELL_FREE,
                0,
                allocator::cells_in(s.hdr),
            ) {
                None => {},
                Some(c) => {
                    lemma_refine0_balanced(v, s, c);
                    let (s1, r1) = allocator::refine0(v, s, c);
                    if let Ok(l0) = r1 {
                        lemma_refine_and_mark_balanced(v, s1, l0, 0, n, c * 256);
                    }
                },
            },
        },
    }
}

pub proof fn lemma_some_balanced(v: Vol, s: St, n: int)
    requires
        1 <= n,
    ensures
        ({
            let (s1, r1) = allocator::alloc_some(v, s, n);
            r1 is Ok ==> balanced(s, s1, granted(n))
        }),
{
    if n >= 256 {
        fmt::lemma_ceil_div(n, 256);
    } else if n > 16 {
        fmt::lemma_ceil_div(n, 16);
        lemma_alloc1_balanced(v, s, fmt::ceil_div(n, 16));
    } else {
        lemma_alloc2_balanced(v, s, n);
    }
}

/// An allocation moves what it grants from the free blocks to the used ones,
/// in the superblock's counters, and the three counters add up to the same.
pub proof fn law_allocation_counts_its_blocks(v: Vol, p: Pool, ag: u32, n: int)
    requires
        1 <= n,
    ensures
        ({
            let (p1, r1) = allocator::allocated(v, p, ag, n);
            r1 is Ok ==> {
                &&& p1.full == p.full + granted(n)
                &&& p1.free + p1.rsvd + p1.full == p.free + p.rsvd + p.full
            }
        }),
{
    reveal(allocator::allocated);
    if let Ok(hdr) = fs::header_of(v, p.t, ag) {
        lemma_some_balanced(v, allocator::with_hdr(p, hdr), n);
    }
}

// --- full groups --------------------------------------------------------------

/// The error says that the group has no run of the length asked for.
pub open spec fn says_full(e: FsError) -> bool {
    e is OutOfSpace || e is NoRoom
}

proof fn lemma_puts_reason(v: Vol, t: Map<u64, Seq<u8>>, hdr: AgHeader, off: int, xs: Seq<u8>)
    ensures
        roottable::rt_puts(v, t, hdr, off, xs).1 matches Err(e) ==> !says_full(e),
    decreases xs.len(),
{
    if xs.len() > 0 {
        let (t1, r) = roottable::rt_put(v, t, hdr, off, xs[0]);
        if r is Ok {
            lemma_puts_reason(v, t1, hdr, off + 1, xs.skip(1));
        }
    }
}

pub proof fn lemma_cells_reason(v: Vol, t: Map<u64, Seq<u8>>, hdr: AgHeader, lo: int, hi: int, st: u8)
    ensures
        roottable::cells_to(v, t, hdr, lo, hi, st).1 matches Err(e) ==> !says_full(e),
    decreases hi - lo,
{
    if lo < hi {
        let (t1, r) = roottable::cell_to(v, t, hdr, lo, st);
        if r is Ok {
            lemma_cells_reason(v, t1, hdr, lo + 1, hi, st);
        }
    }
}

proof fn lemma_spare_reason(v: Vol, t: Map<u64, Seq<u8>>, ag: u32, b: int, end: int)
    ensures
        allocator::spare_rec(v, t, ag, b, end) matches Err(e) ==> !says_full(e),
    decreases end - b,
{
    if b < end {
        lemma_spare_reason(v, t, ag, b + 1, end);
    }
}

proof fn lemma_claim_reason(v: Vol, s: St)
    ensures
        allocator::claim_rec(v, s).1 matches Err(e) ==> !says_full(e),
{
    lemma_spare_reason(
        v,
        s.t,
        s.hdr.ag_num,
        s.hdr.tbl_arena as int,
        s.hdr.tbl_arena + allocator::cell_start(1),
    );
}

pub proof fn lemma_refine_reason(v: Vol, s: St, c: int, l0: (u32, u16), i: int)
    ensures
        allocator::refine0(v, s, c).1 matches Err(e) ==> !says_full(e),
        allocator::refine1(v, s, l0, i).1 matches Err(e) ==> !says_full(e),
{
    let t1 = roottable::cell_to(v, s.t, s.hdr, c, CELL_REFINED).0;
    let s1 = St { t: t1, ..s };
    lemma_claim_reason(v, s);
    lemma_claim_reason(v, s1);
    let (s2, r2) = allocator::claim_rec(v, s1);
    if r2 is Ok {
        lemma_puts_reason(
            v,
            s2.t,
            s2.hdr,
            roottable::cell_ref_off(s2.hdr, c),
            roottable::ref_bytes(r2->Ok_0),
        );
    }
}

pub proof fn lemma_mark_reason(
    v: Vol,
    s: St,
    r: (u32, u16),
    rec: Seq<u8>,
    lo: int,
    hi: int,
    n: int,
    blk: int,
)
    ensures
        allocator::mark(v, s, r, rec, lo, hi, n, blk).1 matches Err(e) ==> !says_full(e),
{
}

pub proof fn lemma_part_reason(v: Vol, s: St, l0: (u32, u16), i: int, n: int, blk: int)
    ensures
        allocator::refine_and_mark(v, s, l0, i, n, blk).1 matches Err(e) ==> !says_full(e),
{
    lemma_refine_reason(v, s, 0, l0, i);
    let (s1, r1) = allocator::refine1(v, s, l0, i);
    if let Ok(l1) = r1 {
        if let Ok(rec) = roottable::record_of(v, s1.t, s1.hdr.ag_num, l1) {
            lemma_mark_reason(v, s1, l1, rec, 0, n, n, blk);
        }
    }
}

proof fn lemma_full0(v: Vol, s: St, k: int)
    ensures
        allocator::alloc0(v, s, k).1 matches Err(e) ==> says_full(e) ==> allocator::alloc0(
            v,
            s,
            k,
        ).0 == s,
{
    if let Ok(Some(c)) = roottable::free_cells(v, s.t, s.hdr, k, 0, 0, allocator::cells_in(s.hdr)) {
        lemma_cells_reason(v, s.t, s.hdr, c, c + k, CELL_FULL);
    }
}

proof fn lemma_full1(v: Vol, s: St, m: int)
    ensures
        allocator::alloc1(v, s, m).1 matches Err(e) ==> says_full(e) ==> allocator::alloc1(
            v,
            s,
            m,
        ).0 == s,
{
    match allocator::room1(v, s.t, s.hdr, m, 0) {
        Err(_) => {},
        Ok(Some((c, r, rec, start))) => {
            lemma_mark_reason(
                v,
                s,
                r,
                rec,
                start,
                start + m,
                m * 16,
                allocator::cell_start(c) + start * 16,
            );
        },
        Ok(None) => {
            let o = roottable::first_cell(
                v,
                s.t,
                s.hdr,
                CELL_FREE,
                0,
                allocator::cells_in(s.hdr),
            );
            if let Some(c) = o {
                lemma_refine_reason(v, s, c, (0, 0), 0);
                let (s1, r1) = allocator::refine0(v, s, c);
                if let Ok(r) = r1 {
                    if let Ok(rec) = roottable::record_of(v, s1.t, s1.hdr.ag_num, r) {
                        lemma_mark_reason(
                            v,
                            s1,
                            r,
                            rec,
                            0,
                            m,
                            m * 16,
                            allocator::cell_start(c),
                        );
                    }
                }
            }
        },
    }
}

proof fn lemma_full2(v: Vol, s: St, n: int)
    ensures
        allocator::alloc2(v, s, n).1 matches Err(e) ==> says_full(e) ==> allocator::alloc2(
            v,
            s,
            n,
        ).0 == s,
{
    match allocator::room2(v, s.t, s.hdr, n, 0) {
        Err(_) => {},
        Ok(Some((blk, l1, rec, start))) => {
            lemma_mark_reason(v, s, l1, rec, start, start + n, n, blk);
        },
        Ok(None) => {
            match allocator::spare1(v, s.t, s.hdr, 0) {
                Err(_) => {},
                Ok(Some((c, l0, i))) => {
                    lemma_part_reason(v, s, l0, i, n, allocator::cell_start(c) + i * 16);
                },
                Ok(None) => {
                    let o = roottable::first_cell(
                        v,
                        s.t,
                        s.hdr,
                        CELL_FREE,
                        0,
                        allocator::cells_in(s.hdr),
                    );
                    if let Some(c) = o {
                        lemma_refine_reason(v, s, c, (0, 0), 0);
                        let (s1, r1) = allocator::refine0(v, s, c);
                        if let Ok(l0) = r1 {
                            lemma_part_reason(v, s1, l0, 0, n, allocator::cell_start(c));
                        }
                    }
                },
            }
        },
    }
}

/// A group that has no run of the length asked for is left as it is.
pub proof fn law_full_group_is_left_alone(v: Vol, p: Pool, ag: u32, n: int)
    requires
        allocator::allocated(v, p, ag, n).1 matches Err(e) && says_full(e),
    ensures
        allocator::allocated(v, p, ag, n).0 == p,
{
    reveal(allocator::allocated);
    if let Ok(hdr) = fs::header_of(v, p.t, ag) {
        let s = allocator::with_hdr(p, hdr);
        lemma_full0(v, s, fmt::ceil_div(n, 256));
        lemma_full1(v, s, fmt::ceil_div(n, 16));
        lemma_full2(v, s, n);
    }
}

} // verus!
