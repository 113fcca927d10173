//! A group that is said to be full is: where there is room for what is asked,
//! the allocator does not miss it.

use vstd::prelude::*;

use crate::allocator;
use crate::allocator::{Pool, St};
use crate::allocator_laws;
use crate::error::FsError;
use crate::fmt;
use crate::fmt::{CELL_FREE, CELL_REFINED};
use crate::fs;
use crate::header::AgHeader;
use crate::record;
use crate::roottable;
use crate::tables;
use crate::vol::Vol;

verus! {

// --- searches that find nothing -----------------------------------------------

proof fn lemma_no_cell(v: Vol, t: Map<u64, Seq<u8>>, hdr: AgHeader, st: u8, c: int, cells: int, k: int)
    requires
        c <= k < cells,
        roottable::first_cell(v, t, hdr, st, c, cells) is None,
    ensures
        roottable::cell_of(v, t, hdr, k) != Ok::<u8, FsError>(st),
    decreases cells - c,
{
    if c < k {
        lemma_no_cell(v, t, hdr, st, c + 1, cells, k);
    }
}

/// A search for free cells in a row that finds none has seen every place.
#[verifier::rlimit(40)]
#[verifier::spinoff_prover]
proof fn lemma_no_cells(
    v: Vol,
    t: Map<u64, Seq<u8>>,
    hdr: AgHeader,
    k: int,
    c: int,
    run: int,
    cells: int,
    s: int,
)
    requires
        0 <= run < k,
        run <= c,
        c - run <= s,
        s + k <= cells,
        roottable::free_cells(v, t, hdr, k, c, run, cells) == Ok::<Option<int>, FsError>(None),
        forall|x: int| c - run <= x < c ==> #[trigger] roottable::cell_of(v, t, hdr, x) == Ok::<
            u8,
            FsError,
        >(CELL_FREE),
    ensures
        exists|x: int|
            s <= x < s + k && #[trigger] roottable::cell_of(v, t, hdr, x) != Ok::<u8, FsError>(
                CELL_FREE,
            ),
    decreases cells - c,
{
    if c < cells {
        let st = roottable::cell_of(v, t, hdr, c)->Ok_0;
        if st != CELL_FREE {
            if s <= c {
                assert(roottable::cell_of(v, t, hdr, c) != Ok::<u8, FsError>(CELL_FREE));
                assert(s <= c < s + k) by {
                    if c >= s + k {
                        assert(c - run > s);
                    }
                }
            } else {
                lemma_no_cells(v, t, hdr, k, c + 1, 0, cells, s);
            }
        } else if run + 1 != k {
            lemma_no_cells(v, t, hdr, k, c + 1, run + 1, cells, s);
        }
    }
}

proof fn lemma_no_room1(v: Vol, t: Map<u64, Seq<u8>>, hdr: AgHeader, m: int, c: int, k: int)
    requires
        c <= k < allocator::cells_in(hdr),
        allocator::room1(v, t, hdr, m, c) matches Ok(None),
    ensures
        roottable::cell_of(v, t, hdr, k) is Ok,
        roottable::cell_of(v, t, hdr, k) == Ok::<u8, FsError>(CELL_REFINED) ==> {
            &&& roottable::cell_ref(v, t, hdr, k) matches Ok(r)
            &&& roottable::record_of(v, t, hdr.ag_num, r) matches Ok(rec)
            &&& record::first_run(rec, m) is None
        },
    decreases allocator::cells_in(hdr) - c,
{
    if c < k {
        lemma_no_room1(v, t, hdr, m, c + 1, k);
    }
}

proof fn lemma_no_spare1(v: Vol, t: Map<u64, Seq<u8>>, hdr: AgHeader, c: int, k: int)
    requires
        c <= k < allocator::cells_in(hdr),
        allocator::spare1(v, t, hdr, c) matches Ok(None),
    ensures
        roottable::cell_of(v, t, hdr, k) == Ok::<u8, FsError>(CELL_REFINED) ==> {
            &&& roottable::cell_ref(v, t, hdr, k) matches Ok(r)
            &&& roottable::record_of(v, t, hdr.ag_num, r) matches Ok(rec)
            &&& record::first_in(rec, CELL_FREE, 0) is None
        },
    decreases allocator::cells_in(hdr) - c,
{
    if c < k {
        lemma_no_spare1(v, t, hdr, c + 1, k);
    }
}

proof fn lemma_no_room2_in(
    v: Vol,
    t: Map<u64, Seq<u8>>,
    ag: u32,
    rec: Seq<u8>,
    n: int,
    i: int,
    j: int,
)
    requires
        i <= j < 16,
        allocator::room2_in(v, t, ag, rec, n, i) matches Ok(None),
    ensures
        fmt::cell_at(rec, j) == CELL_REFINED ==> {
            &&& roottable::record_of(v, t, ag, record::ref_of(rec, j)) matches Ok(sub)
            &&& record::first_run(sub, n) is None
        },
    decreases 16 - i,
{
    if i < j {
        lemma_no_room2_in(v, t, ag, rec, n, i + 1, j);
    }
}

proof fn lemma_no_room2(v: Vol, t: Map<u64, Seq<u8>>, hdr: AgHeader, n: int, c: int, k: int, j: int)
    requires
        c <= k < allocator::cells_in(hdr),
        0 <= j < 16,
        allocator::room2(v, t, hdr, n, c) matches Ok(None),
    ensures
        roottable::cell_of(v, t, hdr, k) == Ok::<u8, FsError>(CELL_REFINED) ==> {
            &&& roottable::cell_ref(v, t, hdr, k) matches Ok(r)
            &&& roottable::record_of(v, t, hdr.ag_num, r) matches Ok(rec)
            &&& fmt::cell_at(rec, j) == CELL_REFINED ==> {
                &&& roottable::record_of(v, t, hdr.ag_num, record::ref_of(rec, j)) matches Ok(sub)
                &&& record::first_run(sub, n) is None
            }
        },
    decreases allocator::cells_in(hdr) - c,
{
    if c < k {
        lemma_no_room2(v, t, hdr, n, c + 1, k, j);
    } else if roottable::cell_of(v, t, hdr, k) == Ok::<u8, FsError>(CELL_REFINED) {
        let r = roottable::cell_ref(v, t, hdr, k)->Ok_0;
        let rec = roottable::record_of(v, t, hdr.ag_num, r)->Ok_0;
        lemma_no_room2_in(v, t, hdr.ag_num, rec, n, 0, j);
    }
}

// --- what a group says --------------------------------------------------------

/// A read that fails does not say that a group is full.
proof fn lemma_read_reason(v: Vol, t: Map<u64, Seq<u8>>, hdr: AgHeader, c: int, r: (u32, u16))
    ensures
        roottable::cell_of(v, t, hdr, c) matches Err(e) ==> !allocator_laws::says_full(e),
        roottable::record_of(v, t, hdr.ag_num, r) matches Err(e) ==> !allocator_laws::says_full(e),
{
}

proof fn lemma_gets_reason(v: Vol, t: Map<u64, Seq<u8>>, hdr: AgHeader, off: int, n: int)
    ensures
        roottable::rt_gets(v, t, hdr, off, n) matches Err(e) ==> !allocator_laws::says_full(e),
    decreases n,
{
    if n > 0 {
        lemma_gets_reason(v, t, hdr, off, n - 1);
    }
}

proof fn lemma_cells_why(
    v: Vol,
    t: Map<u64, Seq<u8>>,
    hdr: AgHeader,
    k: int,
    c: int,
    run: int,
    cells: int,
)
    ensures
        roottable::free_cells(v, t, hdr, k, c, run, cells) matches Err(e)
            ==> !allocator_laws::says_full(e),
    decreases cells - c,
{
    if c < cells {
        lemma_read_reason(v, t, hdr, c, (0, 0));
        if let Ok(st) = roottable::cell_of(v, t, hdr, c) {
            if st != CELL_FREE {
                lemma_cells_why(v, t, hdr, k, c + 1, 0, cells);
            } else if run + 1 != k {
                lemma_cells_why(v, t, hdr, k, c + 1, run + 1, cells);
            }
        }
    }
}

proof fn lemma_room1_why(v: Vol, t: Map<u64, Seq<u8>>, hdr: AgHeader, m: int, c: int)
    ensures
        allocator::room1(v, t, hdr, m, c) matches Err(e) ==> !allocator_laws::says_full(e),
    decreases allocator::cells_in(hdr) - c,
{
    if c < allocator::cells_in(hdr) {
        lemma_read_reason(v, t, hdr, c, (0, 0));
        lemma_gets_reason(v, t, hdr, roottable::cell_ref_off(hdr, c), 6);
        if let Ok(r) = roottable::cell_ref(v, t, hdr, c) {
            lemma_read_reason(v, t, hdr, c, r);
        }
        lemma_room1_why(v, t, hdr, m, c + 1);
    }
}

proof fn lemma_spare1_why(v: Vol, t: Map<u64, Seq<u8>>, hdr: AgHeader, c: int)
    ensures
        allocator::spare1(v, t, hdr, c) matches Err(e) ==> !allocator_laws::says_full(e),
    decreases allocator::cells_in(hdr) - c,
{
    if c < allocator::cells_in(hdr) {
        lemma_read_reason(v, t, hdr, c, (0, 0));
        lemma_gets_reason(v, t, hdr, roottable::cell_ref_off(hdr, c), 6);
        if let Ok(r) = roottable::cell_ref(v, t, hdr, c) {
            lemma_read_reason(v, t, hdr, c, r);
        }
        lemma_spare1_why(v, t, hdr, c + 1);
    }
}

proof fn lemma_room2_in_why(
    v: Vol,
    t: Map<u64, Seq<u8>>,
    hdr: AgHeader,
    rec: Seq<u8>,
    n: int,
    i: int,
)
    ensures
        allocator::room2_in(v, t, hdr.ag_num, rec, n, i) matches Err(e)
            ==> !allocator_laws::says_full(e),
    decreases 16 - i,
{
    if i < 16 {
        lemma_read_reason(v, t, hdr, 0, record::ref_of(rec, i));
        lemma_room2_in_why(v, t, hdr, rec, n, i + 1);
    }
}

proof fn lemma_room2_why(v: Vol, t: Map<u64, Seq<u8>>, hdr: AgHeader, n: int, c: int)
    ensures
        allocator::room2(v, t, hdr, n, c) matches Err(e) ==> !allocator_laws::says_full(e),
    decreases allocator::cells_in(hdr) - c,
{
    if c < allocator::cells_in(hdr) {
        lemma_read_reason(v, t, hdr, c, (0, 0));
        lemma_gets_reason(v, t, hdr, roottable::cell_ref_off(hdr, c), 6);
        if let Ok(r) = roottable::cell_ref(v, t, hdr, c) {
            lemma_read_reason(v, t, hdr, c, r);
            if let Ok(rec) = roottable::record_of(v, t, hdr.ag_num, r) {
                lemma_room2_in_why(v, t, hdr, rec, n, 0);
            }
        }
        lemma_room2_why(v, t, hdr, n, c + 1);
    }
}

/// The group is said to have no room.
spec fn full(r: Result<u64, FsError>) -> bool {
    r matches Err(e) && allocator_laws::says_full(e)
}

proof fn lemma_full0(v: Vol, s: St, k: int)
    requires
        full(allocator::alloc0(v, s, k).1),
    ensures
        roottable::free_cells(v, s.t, s.hdr, k, 0, 0, allocator::cells_in(s.hdr)) == Ok::<
            Option<int>,
            FsError,
        >(None),
{
    lemma_cells_why(v, s.t, s.hdr, k, 0, 0, allocator::cells_in(s.hdr));
    if let Ok(Some(c)) = roottable::free_cells(v, s.t, s.hdr, k, 0, 0, allocator::cells_in(s.hdr)) {
        allocator_laws::lemma_cells_reason(v, s.t, s.hdr, c, c + k, crate::fmt::CELL_FULL);
    }
}

#[verifier::rlimit(40)]
#[verifier::spinoff_prover]
proof fn lemma_full1(v: Vol, s: St, m: int)
    requires
        full(allocator::alloc1(v, s, m).1),
    ensures
        allocator::room1(v, s.t, s.hdr, m, 0) matches Ok(None),
        roottable::first_cell(v, s.t, s.hdr, CELL_FREE, 0, allocator::cells_in(s.hdr)) is None,
{
    lemma_room1_why(v, s.t, s.hdr, m, 0);
    if let Ok(Some((c, r, rec, start))) = allocator::room1(v, s.t, s.hdr, m, 0) {
        allocator_laws::lemma_mark_reason(
            v,
            s,
            r,
            rec,
            start,
            start + m,
            m * 16,
            allocator::cell_start(c) + start * 16,
        );
        assert(false);
    }
    let o = roottable::first_cell(v, s.t, s.hdr, CELL_FREE, 0, allocator::cells_in(s.hdr));
    if let Some(c) = o {
        allocator_laws::lemma_refine_reason(v, s, c, (0, 0), 0);
        let (s1, r1) = allocator::refine0(v, s, c);
        if let Ok(r) = r1 {
            lemma_read_reason(v, s1.t, s1.hdr, 0, r);
            if let Ok(rec) = roottable::record_of(v, s1.t, s1.hdr.ag_num, r) {
                allocator_laws::lemma_mark_reason(
                    v,
                    s1,
                    r,
                    rec,
                    0,
                    m,
                    m * 16,
                    allocator::cell_start(c),
                );
            }
        }
        assert(false);
    }
}

#[verifier::rlimit(40)]
#[verifier::spinoff_prover]
proof fn lemma_full2(v: Vol, s: St, n: int)
    requires
        full(allocator::alloc2(v, s, n).1),
    ensures
        allocator::room2(v, s.t, s.hdr, n, 0) matches Ok(None),
        allocator::spare1(v, s.t, s.hdr, 0) matches Ok(None),
        roottable::first_cell(v, s.t, s.hdr, CELL_FREE, 0, allocator::cells_in(s.hdr)) is None,
{
    lemma_room2_why(v, s.t, s.hdr, n, 0);
    lemma_spare1_why(v, s.t, s.hdr, 0);
    if let Ok(Some((blk, l1, rec, start))) = allocator::room2(v, s.t, s.hdr, n, 0) {
        allocator_laws::lemma_mark_reason(v, s, l1, rec, start, start + n, n, blk);
        assert(false);
    }
    if let Ok(Some((c, l0, i))) = allocator::spare1(v, s.t, s.hdr, 0) {
        allocator_laws::lemma_part_reason(v, s, l0, i, n, allocator::cell_start(c) + i * 16);
        assert(false);
    }
    let o = roottable::first_cell(v, s.t, s.hdr, CELL_FREE, 0, allocator::cells_in(s.hdr));
    if let Some(c) = o {
        allocator_laws::lemma_refine_reason(v, s, c, (0, 0), 0);
        let (s1, r1) = allocator::refine0(v, s, c);
        if let Ok(l0) = r1 {
            allocator_laws::lemma_part_reason(v, s1, l0, 0, n, allocator::cell_start(c));
        }
        assert(false);
    }
}

// --- records ------------------------------------------------------------------

/// The first run of a record is a run of free children of the length asked for,
/// and none starts before it; where there is one it is found.
pub proof fn law_first_run_of_a_record(rec: Seq<u8>, m: int, s: int)
    requires
        m > 0,
        0 <= s,
        s + m <= 16,
        forall|i: int| s <= i < s + m ==> #[trigger] fmt::cell_at(rec, i) == CELL_FREE,
    ensures
        ({
            &&& record::first_run(rec, m) matches Some(r)
            &&& 0 <= r <= s
            &&& forall|i: int| r <= i < r + m ==> #[trigger] fmt::cell_at(rec, i) == CELL_FREE
        }),
{
    assert(record::is_run(rec, s, m));
    lemma_least(rec, m, s);
    let r = record::first_run(rec, m)->0;
    assert(record::is_run(rec, r, m) && forall|q: int| 0 <= q < r ==> !record::is_run(rec, q, m));
    if r > s {
        assert(!record::is_run(rec, s, m));
    }
}

proof fn lemma_least(rec: Seq<u8>, m: int, s: int)
    requires
        record::is_run(rec, s, m),
    ensures
        exists|r: int|
            record::is_run(rec, r, m) && forall|q: int| 0 <= q < r ==> !record::is_run(rec, q, m),
    decreases s,
{
    if exists|q: int| 0 <= q < s && record::is_run(rec, q, m) {
        let q = choose|q: int| 0 <= q < s && record::is_run(rec, q, m);
        lemma_least(rec, m, q);
    }
}

/// The first child in a state is in that state, and none before it is; where
/// there is one it is found.
pub proof fn law_first_child_in_a_state(rec: Seq<u8>, st: u8, i: int, j: int)
    requires
        0 <= i <= j < 16,
        fmt::cell_at(rec, j) == st,
    ensures
        ({
            &&& record::first_in(rec, st, i) matches Some(r)
            &&& i <= r <= j
            &&& fmt::cell_at(rec, r) == st
            &&& forall|q: int| i <= q < r ==> #[trigger] fmt::cell_at(rec, q) != st
        }),
    decreases 16 - i,
{
    if i < j && fmt::cell_at(rec, i) != st {
        law_first_child_in_a_state(rec, st, i + 1, j);
    }
}

// --- full groups --------------------------------------------------------------

/// Where a group is too full for 1 to 16 blocks, no 16 blocks that belong
/// together have that many free in a row.
#[verifier::rlimit(40)]
#[verifier::spinoff_prover]
pub proof fn law_no_room_for_a_few_blocks(v: Vol, p: Pool, ag: u32, hdr: AgHeader, n: int, b: int)
    requires
        1 <= n <= 16,
        fs::header_of(v, p.t, ag) == Ok::<AgHeader, FsError>(hdr),
        allocator::allocated(v, p, ag, n).1 matches Err(e) && allocator_laws::says_full(e),
        0 <= b,
        b / 256 < allocator::cells_in(hdr),
        b % 16 + n <= 16,
    ensures
        exists|x: int|
            b <= x < b + n && #[trigger] tables::block_state(v, p.t, hdr, x) != Ok::<u8, FsError>(
                CELL_FREE,
            ),
{
    lemma_searched2(v, p, ag, hdr, n);
    let c = b / 256;
    let j = b % 256 / 16;
    lemma_parts(b);
    lemma_no_cell(v, p.t, hdr, CELL_FREE, 0, allocator::cells_in(hdr), c);
    lemma_no_spare1(v, p.t, hdr, 0, c);
    lemma_no_room2(v, p.t, hdr, n, 0, c, j);
    lemma_not_all_free(v, p.t, hdr, n, c, j, b % 16);
}

/// A block is made up of its cell, its subcell and its place there.
proof fn lemma_parts(b: int)
    requires
        0 <= b,
    ensures
        256 * (b / 256) + 16 * (b % 256 / 16) + b % 16 == b,
        0 <= b % 256 / 16 < 16,
        0 <= b / 256,
        0 <= b % 16,
{
}

/// What was searched before a group is said to have no room for a few blocks.
#[verifier::rlimit(40)]
#[verifier::spinoff_prover]
proof fn lemma_searched2(v: Vol, p: Pool, ag: u32, hdr: AgHeader, n: int)
    requires
        1 <= n <= 16,
        fs::header_of(v, p.t, ag) == Ok::<AgHeader, FsError>(hdr),
        allocator::allocated(v, p, ag, n).1 matches Err(e) && allocator_laws::says_full(e),
    ensures
        allocator::room2(v, p.t, hdr, n, 0) matches Ok(None),
        allocator::spare1(v, p.t, hdr, 0) matches Ok(None),
        roottable::first_cell(v, p.t, hdr, CELL_FREE, 0, allocator::cells_in(hdr)) is None,
{
    reveal(allocator::allocated);
    let s = allocator::with_hdr(p, hdr);
    assert(full(allocator::alloc2(v, s, n).1));
    lemma_full2(v, s, n);
}

#[verifier::rlimit(40)]
#[verifier::spinoff_prover]
proof fn lemma_not_all_free(
    v: Vol,
    t: Map<u64, Seq<u8>>,
    hdr: AgHeader,
    n: int,
    c: int,
    j: int,
    o: int,
)
    requires
        1 <= n,
        0 <= c,
        0 <= j < 16,
        0 <= o,
        o + n <= 16,
        roottable::cell_of(v, t, hdr, c) != Ok::<u8, FsError>(CELL_FREE),
        roottable::cell_of(v, t, hdr, c) == Ok::<u8, FsError>(CELL_REFINED) ==> {
            &&& roottable::cell_ref(v, t, hdr, c) matches Ok(r)
            &&& roottable::record_of(v, t, hdr.ag_num, r) matches Ok(rec)
            &&& record::first_in(rec, CELL_FREE, 0) is None
            &&& fmt::cell_at(rec, j) == CELL_REFINED ==> {
                &&& roottable::record_of(v, t, hdr.ag_num, record::ref_of(rec, j)) matches Ok(sub)
                &&& record::first_run(sub, n) is None
            }
        },
    ensures
        exists|x: int|
            256 * c + 16 * j + o <= x < 256 * c + 16 * j + o + n && #[trigger] tables::block_state(
                v,
                t,
                hdr,
                x,
            ) != Ok::<u8, FsError>(CELL_FREE),
{
    let b = 256 * c + 16 * j + o;
    lemma_halves(c, j, o);
    if roottable::cell_of(v, t, hdr, c) != Ok::<u8, FsError>(CELL_REFINED) {
        assert(tables::block_state(v, t, hdr, b) != Ok::<u8, FsError>(CELL_FREE));
    } else {
        let r = roottable::cell_ref(v, t, hdr, c)->Ok_0;
        let rec = roottable::record_of(v, t, hdr.ag_num, r)->Ok_0;
        if fmt::cell_at(rec, j) != CELL_REFINED {
            if fmt::cell_at(rec, j) == CELL_FREE {
                law_first_child_in_a_state(rec, CELL_FREE, 0, j);
            }
            assert(tables::block_state(v, t, hdr, b) != Ok::<u8, FsError>(CELL_FREE));
        } else {
            let sub = roottable::record_of(v, t, hdr.ag_num, record::ref_of(rec, j))->Ok_0;
            if forall|i: int| o <= i < o + n ==> #[trigger] fmt::cell_at(sub, i) == CELL_FREE {
                law_first_run_of_a_record(sub, n, o);
            }
            let i = choose|i: int|
                o <= i < o + n && #[trigger] fmt::cell_at(sub, i) != CELL_FREE;
            lemma_halves(c, j, i);
            assert(tables::block_state(v, t, hdr, 256 * c + 16 * j + i) != Ok::<u8, FsError>(
                CELL_FREE,
            ));
        }
    }
}

/// A block by its cell, its subcell and its place there.
pub proof fn lemma_halves(c: int, j: int, i: int)
    requires
        0 <= c,
        0 <= j < 16,
        0 <= i < 16,
    ensures
        (256 * c + 16 * j + i) / 256 == c,
        (256 * c + 16 * j + i) % 256 / 16 == j,
        (256 * c + 16 * j + i) % 16 == i,
{
}

/// Where a group is too full for 17 to 255 blocks, no cell is free, and no
/// refined cell has as many children free in a row as hold them.
#[verifier::rlimit(40)]
#[verifier::spinoff_prover]
pub proof fn law_no_room_for_some_blocks(
    v: Vol,
    p: Pool,
    ag: u32,
    hdr: AgHeader,
    n: int,
    m: int,
    c: int,
    i: int,
)
    requires
        16 < n < 256,
        16 * (m - 1) < n <= 16 * m,
        fs::header_of(v, p.t, ag) == Ok::<AgHeader, FsError>(hdr),
        allocator::allocated(v, p, ag, n).1 matches Err(e) && allocator_laws::says_full(e),
        0 <= c < allocator::cells_in(hdr),
        0 <= i,
        i + m <= 16,
    ensures
        roottable::cell_of(v, p.t, hdr, c) != Ok::<u8, FsError>(CELL_FREE),
        roottable::cell_of(v, p.t, hdr, c) == Ok::<u8, FsError>(CELL_REFINED) ==> {
            &&& roottable::cell_ref(v, p.t, hdr, c) matches Ok(r)
            &&& roottable::record_of(v, p.t, hdr.ag_num, r) matches Ok(rec)
            &&& exists|j: int| i <= j < i + m && #[trigger] fmt::cell_at(rec, j) != CELL_FREE
        },
{
    reveal(allocator::allocated);
    let s = allocator::with_hdr(p, hdr);
    fmt::lemma_ceil_div(n, 16);
    assert(fmt::ceil_div(n, 16) == m);
    lemma_full1(v, s, m);
    lemma_no_cell(v, p.t, hdr, CELL_FREE, 0, allocator::cells_in(hdr), c);
    lemma_no_room1(v, p.t, hdr, m, 0, c);
    if roottable::cell_of(v, p.t, hdr, c) == Ok::<u8, FsError>(CELL_REFINED) {
        let r = roottable::cell_ref(v, p.t, hdr, c)->Ok_0;
        let rec = roottable::record_of(v, p.t, hdr.ag_num, r)->Ok_0;
        if forall|j: int| i <= j < i + m ==> #[trigger] fmt::cell_at(rec, j) == CELL_FREE {
            law_first_run_of_a_record(rec, m, i);
        }
    }
}

/// Where a group is too full for 256 blocks or more, it nowhere has as many free
/// cells in a row as hold them.
pub proof fn law_no_room_for_many_blocks(
    v: Vol,
    p: Pool,
    ag: u32,
    hdr: AgHeader,
    n: int,
    k: int,
    c: int,
)
    requires
        n >= 256,
        256 * (k - 1) < n <= 256 * k,
        fs::header_of(v, p.t, ag) == Ok::<AgHeader, FsError>(hdr),
        allocator::allocated(v, p, ag, n).1 matches Err(e) && allocator_laws::says_full(e),
        0 <= c,
        c + k <= allocator::cells_in(hdr),
    ensures
        exists|x: int|
            c <= x < c + k && #[trigger] roottable::cell_of(v, p.t, hdr, x) != Ok::<u8, FsError>(
                CELL_FREE,
            ),
{
    reveal(allocator::allocated);
    let s = allocator::with_hdr(p, hdr);
    fmt::lemma_ceil_div(n, 256);
    assert(fmt::ceil_div(n, 256) == k);
    lemma_full0(v, s, k);
    lemma_no_cells(v, p.t, hdr, k, 0, 0, allocator::cells_in(hdr), c);
}

} // verus!
