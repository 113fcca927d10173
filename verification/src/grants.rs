//! What is granted is taken in whole cells of one size, so that freeing it succeeds and
//! frees exactly that.

use crate::allocator::{Pool, St};
use crate::error::FsError;
use crate::fmt::{CELL_FREE, CELL_FULL, CELL_REFINED};
use crate::header::AgHeader;
use crate::vol::Vol;
use vstd::prelude::*;

use crate::allocator;
use crate::allocator_laws;
use crate::fmt;
use crate::free_laws;
use crate::fs;
use crate::record;
use crate::roottable;
use crate::tables;
use crate::vol;

verus! {

// --- what single blocks are taken from ----------------------------------------

/// Block `b` is one of a refined part of a refined cell.
pub open spec fn fine(v: Vol, t: Map<u64, Seq<u8>>, hdr: AgHeader, b: int) -> bool {
    tables::holds(v, t, hdr, b / 256, b % 256 / 16)
}

pub proof fn lemma_fine_kept(v: Vol, t: Map<u64, Seq<u8>>, t1: Map<u64, Seq<u8>>, hdr: AgHeader, b: int)
    requires
        tables::forms_kept(v, t, t1, hdr),
        fine(v, t, hdr, b),
    ensures
        fine(v, t1, hdr, b),
{
    reveal(tables::forms_kept);
}

/// Marking blocks of a refined child leaves it refined.
proof fn lemma_mark2_fine(
    v: Vol,
    s: St,
    c: int,
    i: int,
    rec: Seq<u8>,
    lo: int,
    hi: int,
    n: int,
    blk: int,
)
    requires
        tables::sound(v, s.t, s.hdr),
        tables::holds(v, s.t, s.hdr, c, i),
        i < 16,
        0 <= lo <= hi <= 16,
        roottable::record_of(v, s.t, s.hdr.ag_num, tables::held(v, s.t, s.hdr, c, i)) == Ok::<
            Seq<u8>,
            FsError,
        >(rec),
        blk / 256 == c,
        blk % 256 / 16 == i,
        0 <= blk,
        allocator::mark(v, s, tables::held(v, s.t, s.hdr, c, i), rec, lo, hi, n, blk).1 is Ok,
    ensures
        ({
            let (s1, r1) = allocator::mark(
                v,
                s,
                tables::held(v, s.t, s.hdr, c, i),
                rec,
                lo,
                hi,
                n,
                blk,
            );
            &&& fmt::addr_local(r1->Ok_0) == blk
            &&& fine(v, s1.t, s1.hdr, blk)
        }),
{
    let l = tables::held(v, s.t, s.hdr, c, i);
    let rec2 = record::with_states(rec, lo, hi, CELL_FULL);
    let t1 = roottable::record_to(v, s.t, s.hdr.ag_num, l, rec2).0;
    let s1 = allocator::mark(v, s, l, rec, lo, hi, n, blk).0;
    assert(tables::good_ref(v, s.t, s.hdr, l));
    tables::lemma_record_len(v, s.t, s.hdr, l);
    tables::lemma_with_states(rec, lo, hi, CELL_FULL);
    tables::lemma_sub_change(v, s.t, s.hdr, c, i, rec2);
    tables::lemma_same_place(v, t1, s.hdr, s1.hdr);
    allocator_laws::lemma_local(s.hdr, blk);
}

proof fn lemma_part_fine(v: Vol, s: St, c: int, i: int, n: int)
    requires
        tables::sound(v, s.t, s.hdr),
        tables::holds(v, s.t, s.hdr, c, 16),
        0 <= i < 16,
        fmt::cell_at(tables::cell_rec(v, s.t, s.hdr, c), i) == CELL_FREE,
        1 <= n <= 16,
        allocator::refine_and_mark(
            v,
            s,
            tables::held(v, s.t, s.hdr, c, 16),
            i,
            n,
            c * 256 + i * 16,
        ).1 is Ok,
    ensures
        ({
            let (s1, r1) = allocator::refine_and_mark(
                v,
                s,
                tables::held(v, s.t, s.hdr, c, 16),
                i,
                n,
                c * 256 + i * 16,
            );
            &&& fine(v, s1.t, s1.hdr, fmt::addr_local(r1->Ok_0) as int)
            &&& fmt::addr_local(r1->Ok_0) == c * 256 + i * 16
        }),
{
    tables::lemma_refine1(v, s, c, i);
    let s1 = allocator::refine1(v, s, tables::held(v, s.t, s.hdr, c, 16), i).0;
    lemma_mark2_fine(v, s1, c, i, fmt::zeros(128), 0, n, n, c * 256 + i * 16);
}

/// The tables of a state are sound.
#[verifier::opaque]
spec fn sane(v: Vol, s: St) -> bool {
    tables::sound(v, s.t, s.hdr)
}

/// The blocks that were handed out lie in one refined part.
spec fn fine_run(v: Vol, out: (St, Result<u64, FsError>), n: int) -> bool {
    let b = fmt::addr_local(out.1->Ok_0) as int;
    fine(v, out.0.t, out.0.hdr, b) && b % 16 + n <= 16
}

/// Where a block of a part lies.
proof fn lemma_in_part(c: int, i: int, j: int)
    requires
        0 <= i < 16,
        0 <= j < 16,
    ensures
        (c * 256 + i * 16 + j) / 256 == c,
        (c * 256 + i * 16 + j) % 256 / 16 == i,
        (c * 256 + i * 16 + j) % 16 == j,
{
}

proof fn lemma_run_fine(v: Vol, s: St, n: int, found: (int, (u32, u16), Seq<u8>, int))
    requires
        sane(v, s),
        1 <= n <= 16,
        allocator::room2(v, s.t, s.hdr, n, 0) matches Ok(Some(f)) && f == found,
        allocator::mark(v, s, found.1, found.2, found.3, found.3 + n, n, found.0).1 is Ok,
    ensures
        fine_run(
            v,
            allocator::mark(v, s, found.1, found.2, found.3, found.3 + n, n, found.0),
            n,
        ),
{
    reveal(sane);
    let (blk, l1, rec, start) = found;
    let (d, i) = allocator_laws::lemma_room2_at(v, s.t, s.hdr, n, 0);
    assert(allocator_laws::run_at(v, s.t, s.hdr, n, found, d, i));
    assert(0 <= start && start + n <= 16);
    lemma_in_part(d, i, start);
    lemma_mark2_fine(v, s, d, i, rec, start, start + n, n, blk);
}

proof fn lemma_spare_fine(v: Vol, s: St, n: int, c: int, l0: (u32, u16), i: int)
    requires
        sane(v, s),
        1 <= n <= 16,
        allocator::spare1(v, s.t, s.hdr, 0) matches Ok(Some(f)) && f == (c, l0, i),
        allocator::refine_and_mark(v, s, l0, i, n, c * 256 + i * 16).1 is Ok,
    ensures
        fine_run(v, allocator::refine_and_mark(v, s, l0, i, n, c * 256 + i * 16), n),
{
    reveal(sane);
    allocator_laws::lemma_spare1_at(v, s.t, s.hdr, 0);
    lemma_in_part(c, i, 0);
    lemma_part_fine(v, s, c, i, n);
}

proof fn lemma_new_fine(v: Vol, s: St, n: int, c: int)
    requires
        sane(v, s),
        1 <= n <= 16,
        roottable::first_cell(v, s.t, s.hdr, CELL_FREE, 0, allocator::cells_in(s.hdr)) == Some(c),
        allocator::refine0(v, s, c).1 matches Ok(l0) && allocator::refine_and_mark(
            v,
            allocator::refine0(v, s, c).0,
            l0,
            0,
            n,
            c * 256,
        ).1 is Ok,
    ensures
        ({
            let (s1, r1) = allocator::refine0(v, s, c);
            fine_run(v, allocator::refine_and_mark(v, s1, r1->Ok_0, 0, n, c * 256), n)
        }),
{
    reveal(sane);
    tables::lemma_first_cell(v, s.t, s.hdr, CELL_FREE, 0, allocator::cells_in(s.hdr));
    tables::lemma_refine0(v, s, c);
    let s1 = allocator::refine0(v, s, c).0;
    assert(fmt::cell_at(fmt::zeros(128), 0) == CELL_FREE);
    lemma_in_part(c, 0, 0);
    lemma_part_fine(v, s1, c, 0, n);
}

/// A run of up to 16 blocks comes from one refined part.
proof fn lemma_alloc2_fine(v: Vol, s: St, n: int)
    requires
        sane(v, s),
        1 <= n <= 16,
        allocator::alloc2(v, s, n).1 is Ok,
    ensures
        fine_run(v, allocator::alloc2(v, s, n), n),
{
    match allocator::room2(v, s.t, s.hdr, n, 0)->Ok_0 {
        Some(found) => {
            lemma_run_fine(v, s, n, found);
        },
        None => match allocator::spare1(v, s.t, s.hdr, 0)->Ok_0 {
            Some((c, l0, i)) => {
                lemma_spare_fine(v, s, n, c, l0, i);
            },
            None => {
                let cells = allocator::cells_in(s.hdr);
                let c = roottable::first_cell(v, s.t, s.hdr, CELL_FREE, 0, cells)->Some_0;
                lemma_new_fine(v, s, n, c);
            },
        },
    }
}

/// A single block that was allocated is one of a refined part.
pub proof fn lemma_single_fine(v: Vol, p: Pool, ag: u32, hdr: AgHeader)
    requires
        fs::header_of(v, p.t, ag) == Ok::<AgHeader, FsError>(hdr),
        hdr.ag_num == ag,
        tables::sound(v, p.t, hdr),
        allocator::allocated(v, p, ag, 1).1 is Ok,
    ensures
        ({
            let (p1, r1) = allocator::allocated(v, p, ag, 1);
            fine(v, p1.t, hdr, fmt::addr_local(r1->Ok_0) as int)
        }),
{
    reveal(allocator::allocated);
    let s = allocator::with_hdr(p, hdr);
    let (s1, r1) = allocator::alloc2(v, s, 1);
    allocator_laws::lemma_alloc2_taken(v, s, 1);
    assert(sane(v, s)) by {
        reveal(sane);
    }
    lemma_alloc2_fine(v, s, 1);
    assert(tables::sound(v, s1.t, s1.hdr) && tables::same_place(hdr, s1.hdr)) by {
        reveal(allocator_laws::well_taken);
    }
    tables::lemma_header_to(v, s1);
    let s2 = allocator::header_to(s1, v.bs).0;
    lemma_fine_kept(v, s1.t, s2.t, s1.hdr, fmt::addr_local(r1->Ok_0) as int);
    tables::lemma_same_place(v, s2.t, hdr, s1.hdr);
}

/// Freeing one block of a refined part frees that block alone.
pub proof fn lemma_single_freed(v: Vol, p: Pool, blk: u64, hdr: AgHeader)
    requires
        fs::header_of(v, p.t, fmt::addr_ag(blk)) == Ok::<AgHeader, FsError>(hdr),
        hdr.ag_num == fmt::addr_ag(blk),
        tables::sound(v, p.t, hdr),
        fmt::addr_local(blk) + 1 <= tables::block_count(hdr),
        fine(v, p.t, hdr, fmt::addr_local(blk) as int),
        allocator::freed(v, p, blk, 1).1 is Ok,
    ensures
        ({
            let t1 = allocator::freed(v, p, blk, 1).0.t;
            let b = fmt::addr_local(blk) as int;
            &&& fs::header_of(v, t1, hdr.ag_num) matches Ok(hdr1) && tables::same_place(hdr, hdr1)
                && tables::sound(v, t1, hdr1)
            &&& allocator_laws::given(v, p.t, t1, hdr, b, b + 1)
        }),
{
    let b = fmt::addr_local(blk) as int;
    allocator_laws::law_freeing_frees_its_blocks(v, p, blk, hdr, 1);
    assert(tables::holds(v, p.t, hdr, b / 256, 16));
    assert(tables::unit(v, p.t, hdr, b) == 1) by {
        reveal(tables::unit);
    }
    allocator_laws::lemma_last_unit(v, p.t, hdr, b, b);
}

// --- whole cells --------------------------------------------------------------

/// Blocks `lo` to `hi` lie in smallest cells of `g` blocks each, from the start of one
/// to the end of one.
#[verifier::opaque]
pub open spec fn whole(v: Vol, t: Map<u64, Seq<u8>>, hdr: AgHeader, lo: int, hi: int, g: int) -> bool {
    &&& g == 1 || (g == 16 && lo % 16 == 0 && hi % 16 == 0) || (g == 256 && lo % 256 == 0 && hi
        % 256 == 0)
    &&& forall|x: int| lo <= x < hi ==> #[trigger] tables::unit(v, t, hdr, x) == g
}

/// The size of the cells that `n` blocks are taken in.
pub open spec fn grain(n: int) -> int {
    if n >= 256 {
        256
    } else if n > 16 {
        16
    } else {
        1
    }
}

proof fn lemma_cells_whole(v: Vol, s: St, k: int)
    requires
        tables::sound(v, s.t, s.hdr),
        1 <= k,
        allocator::alloc0(v, s, k).1 is Ok,
    ensures
        ({
            let (s1, r1) = allocator::alloc0(v, s, k);
            let b = fmt::addr_local(r1->Ok_0) as int;
            &&& whole(v, s1.t, s1.hdr, b, b + k * 256, 256)
            &&& b + k * 256 <= tables::block_count(s1.hdr)
        }),
{
    reveal(whole);
    let cells = allocator::cells_in(s.hdr);
    let (s1, r1) = allocator::alloc0(v, s, k);
    allocator_laws::lemma_free_cells(v, s.t, s.hdr, k, 0, 0, cells);
    let c = roottable::free_cells(v, s.t, s.hdr, k, 0, 0, cells)->Ok_0->Some_0;
    let t1 = roottable::cells_to(v, s.t, s.hdr, c, c + k, CELL_FULL).0;
    tables::lemma_whole_cells(v, s.t, s.hdr, c, c + k);
    allocator_laws::lemma_local(s.hdr, c * 256);
    assert forall|x: int| c * 256 <= x < c * 256 + k * 256 implies #[trigger] tables::unit(
        v,
        s1.t,
        s1.hdr,
        x,
    ) == 256 by {
        reveal(tables::unit);
        tables::lemma_same_place(v, t1, s.hdr, s1.hdr);
        assert(c <= x / 256 < c + k);
        assert(roottable::cell_of(v, t1, s.hdr, x / 256) == Ok::<u8, FsError>(CELL_FULL));
        assert(!tables::holds(v, t1, s.hdr, x / 256, 16));
    }
}

#[verifier::rlimit(40)]
proof fn lemma_mark_whole(v: Vol, s: St, c: int, lo: int, hi: int)
    requires
        tables::sound(v, s.t, s.hdr),
        tables::holds(v, s.t, s.hdr, c, 16),
        0 <= lo < hi <= 16,
        allocator::mark(
            v,
            s,
            tables::held(v, s.t, s.hdr, c, 16),
            tables::cell_rec(v, s.t, s.hdr, c),
            lo,
            hi,
            (hi - lo) * 16,
            c * 256 + lo * 16,
        ).1 is Ok,
    ensures
        ({
            let (s1, r1) = allocator::mark(
                v,
                s,
                tables::held(v, s.t, s.hdr, c, 16),
                tables::cell_rec(v, s.t, s.hdr, c),
                lo,
                hi,
                (hi - lo) * 16,
                c * 256 + lo * 16,
            );
            let b = fmt::addr_local(r1->Ok_0) as int;
            &&& whole(v, s1.t, s1.hdr, b, b + (hi - lo) * 16, 16)
            &&& b + (hi - lo) * 16 <= tables::block_count(s1.hdr)
        }),
{
    reveal(whole);
    let hdr = s.hdr;
    let l = tables::held(v, s.t, hdr, c, 16);
    let rec = tables::cell_rec(v, s.t, hdr, c);
    let b = c * 256 + lo * 16;
    let (s1, r1) = allocator::mark(v, s, l, rec, lo, hi, (hi - lo) * 16, b);
    let rec2 = record::with_states(rec, lo, hi, CELL_FULL);
    let t1 = roottable::record_to(v, s.t, hdr.ag_num, l, rec2).0;
    assert(tables::good_ref(v, s.t, hdr, l));
    tables::lemma_record_len(v, s.t, hdr, l);
    tables::lemma_with_states(rec, lo, hi, CELL_FULL);
    tables::lemma_rec_change(v, s.t, hdr, c, rec2);
    allocator_laws::lemma_local(hdr, b);
    tables::lemma_same_place(v, t1, hdr, s1.hdr);
    assert(tables::holds(v, s1.t, s1.hdr, c, 16) && tables::cell_rec(v, s1.t, s1.hdr, c) == rec2);
    assert forall|x: int| b <= x < b + (hi - lo) * 16 implies #[trigger] tables::unit(
        v,
        s1.t,
        s1.hdr,
        x,
    ) == 16 by {
        let j = x % 256 / 16;
        assert(x / 256 == c && lo <= j < hi);
        lemma_full_part(v, s1.t, s1.hdr, x);
    }
}

/// A block of a part that is in use as a whole lies in a cell of 16.
proof fn lemma_full_part(v: Vol, t: Map<u64, Seq<u8>>, hdr: AgHeader, x: int)
    requires
        tables::holds(v, t, hdr, x / 256, 16),
        fmt::cell_at(tables::cell_rec(v, t, hdr, x / 256), x % 256 / 16) == CELL_FULL,
    ensures
        tables::unit(v, t, hdr, x) == 16,
{
    reveal(tables::unit);
}

proof fn lemma_parts_whole(v: Vol, s: St, m: int)
    requires
        tables::sound(v, s.t, s.hdr),
        1 <= m <= 16,
        allocator::alloc1(v, s, m).1 is Ok,
    ensures
        ({
            let (s1, r1) = allocator::alloc1(v, s, m);
            let b = fmt::addr_local(r1->Ok_0) as int;
            &&& whole(v, s1.t, s1.hdr, b, b + m * 16, 16)
            &&& b + m * 16 <= tables::block_count(s1.hdr)
        }),
{
    let cells = allocator::cells_in(s.hdr);
    allocator_laws::lemma_room1(v, s.t, s.hdr, m, 0);
    tables::lemma_first_cell(v, s.t, s.hdr, CELL_FREE, 0, cells);
    match allocator::room1(v, s.t, s.hdr, m, 0)->Ok_0 {
        Some((c, r, rec, start)) => {
            assert(tables::holds(v, s.t, s.hdr, c, 16));
            lemma_mark_whole(v, s, c, start, start + m);
        },
        None => {
            let c = roottable::first_cell(v, s.t, s.hdr, CELL_FREE, 0, cells)->Some_0;
            tables::lemma_refine0(v, s, c);
            let s1 = allocator::refine0(v, s, c).0;
            lemma_mark_whole(v, s1, c, 0, m);
        },
    }
}

proof fn lemma_blocks_whole(v: Vol, s: St, n: int)
    requires
        sane(v, s),
        1 <= n <= 16,
        allocator::alloc2(v, s, n).1 is Ok,
    ensures
        ({
            let (s1, r1) = allocator::alloc2(v, s, n);
            let b = fmt::addr_local(r1->Ok_0) as int;
            &&& whole(v, s1.t, s1.hdr, b, b + n, 1)
            &&& b + n <= tables::block_count(s1.hdr)
        }),
{
    lemma_alloc2_fine(v, s, n);
    lemma_run_whole(v, allocator::alloc2(v, s, n), n);
}

proof fn lemma_run_whole(v: Vol, out: (St, Result<u64, FsError>), n: int)
    requires
        fine_run(v, out, n),
    ensures
        ({
            let b = fmt::addr_local(out.1->Ok_0) as int;
            &&& whole(v, out.0.t, out.0.hdr, b, b + n, 1)
            &&& b + n <= tables::block_count(out.0.hdr)
        }),
{
    let b = fmt::addr_local(out.1->Ok_0) as int;
    let (t, hdr) = (out.0.t, out.0.hdr);
    assert(b / 256 < allocator::cells_in(hdr));
    lemma_part_end(b, n);
    lemma_fine_whole(v, t, hdr, b, n);
}

proof fn lemma_part_end(b: int, n: int)
    requires
        0 <= b,
        b % 16 + n <= 16,
    ensures
        b + n <= (b / 256 + 1) * 256,
{
}

proof fn lemma_fine_whole(v: Vol, t: Map<u64, Seq<u8>>, hdr: AgHeader, b: int, n: int)
    requires
        fine(v, t, hdr, b),
        b % 16 + n <= 16,
    ensures
        whole(v, t, hdr, b, b + n, 1),
{
    assert forall|x: int| b <= x < b + n implies #[trigger] tables::unit(v, t, hdr, x) == 1 by {
        lemma_fine_part(v, t, hdr, b, x);
    }
    reveal(whole);
}

/// The blocks of a refined part are cells of their own.
proof fn lemma_fine_part(v: Vol, t: Map<u64, Seq<u8>>, hdr: AgHeader, b: int, x: int)
    requires
        fine(v, t, hdr, b),
        b <= x,
        b % 16 + (x - b) < 16,
    ensures
        tables::unit(v, t, hdr, x) == 1,
{
    reveal(tables::unit);
    assert(x / 256 == b / 256 && x % 256 / 16 == b % 256 / 16);
    assert(tables::holds(v, t, hdr, b / 256, 16));
}

/// What was granted lies in whole cells.
proof fn lemma_granted_whole(v: Vol, s: St, n: int)
    requires
        tables::sound(v, s.t, s.hdr),
        1 <= n,
        allocator::alloc_some(v, s, n).1 is Ok,
    ensures
        ({
            let (s1, r1) = allocator::alloc_some(v, s, n);
            let b = fmt::addr_local(r1->Ok_0) as int;
            &&& whole(v, s1.t, s1.hdr, b, b + allocator_laws::granted(n), grain(n))
            &&& b + allocator_laws::granted(n) <= tables::block_count(s1.hdr)
        }),
{
    if n >= 256 {
        fmt::lemma_ceil_div(n, 256);
        lemma_cells_whole(v, s, fmt::ceil_div(n, 256));
    } else if n > 16 {
        fmt::lemma_ceil_div(n, 16);
        lemma_parts_whole(v, s, fmt::ceil_div(n, 16));
    } else {
        assert(sane(v, s)) by {
            reveal(sane);
        }
        lemma_blocks_whole(v, s, n);
    }
}

// --- writes that succeed ------------------------------------------------------

/// Bytes of the root table that can be read can be replaced.
proof fn lemma_puts_ok(v: Vol, t: Map<u64, Seq<u8>>, hdr: AgHeader, off: int, xs: Seq<u8>)
    requires
        forall|k: int|
            off <= k < off + xs.len() ==> (#[trigger] roottable::rt_get(v, t, hdr, k)) is Ok,
    ensures
        roottable::rt_puts(v, t, hdr, off, xs).1 is Ok,
    decreases xs.len(),
{
    if xs.len() > 0 {
        let (t1, r) = roottable::rt_put(v, t, hdr, off, xs[0]);
        assert(roottable::rt_get(v, t, hdr, off) is Ok);
        assert forall|k: int| off + 1 <= k < off + 1 + xs.skip(1).len() implies (
        #[trigger] roottable::rt_get(v, t1, hdr, k)) is Ok by {
            assert(roottable::rt_get(v, t, hdr, k) is Ok);
        }
        lemma_puts_ok(v, t1, hdr, off + 1, xs.skip(1));
    }
}

proof fn lemma_gets_ok(v: Vol, t: Map<u64, Seq<u8>>, hdr: AgHeader, off: int, n: int, k: int)
    requires
        roottable::rt_gets(v, t, hdr, off, n) is Ok,
        off <= k < off + n,
    ensures
        roottable::rt_get(v, t, hdr, k) is Ok,
    decreases n,
{
    if k < off + n - 1 {
        lemma_gets_ok(v, t, hdr, off, n - 1, k);
    }
}

/// A reference that can be read can be replaced.
proof fn lemma_ref_ok(v: Vol, t: Map<u64, Seq<u8>>, hdr: AgHeader, c: int, r: (u32, u16))
    requires
        roottable::cell_ref(v, t, hdr, c) is Ok,
    ensures
        roottable::cell_ref_to(v, t, hdr, c, r).1 is Ok,
{
    let off = roottable::cell_ref_off(hdr, c);
    assert forall|k: int| off <= k < off + 6 implies (#[trigger] roottable::rt_get(
        v,
        t,
        hdr,
        k,
    )) is Ok by {
        lemma_gets_ok(v, t, hdr, off, 6, k);
    }
    assert(roottable::ref_bytes(r).len() == 6);
    lemma_puts_ok(v, t, hdr, off, roottable::ref_bytes(r));
}

/// A cell of sound tables collapses where it has to.
proof fn lemma_coarsen0_ok(v: Vol, s: St, c: int)
    requires
        tables::sound(v, s.t, s.hdr),
        tables::holds(v, s.t, s.hdr, c, 16),
    ensures
        allocator::coarsen0(
            v,
            s,
            s.hdr.ag_num,
            c,
            tables::held(v, s.t, s.hdr, c, 16),
        ).1 is Ok,
{
    let (t, hdr, ag) = (s.t, s.hdr, s.hdr.ag_num);
    let l0 = tables::held(v, t, hdr, c, 16);
    assert(tables::good_ref(v, t, hdr, l0));
    if record::all_in(tables::cell_rec(v, t, hdr, c), CELL_FREE) {
        let t1 = allocator::release_rec(v, t, ag, l0).0;
        tables::lemma_release(v, t, hdr, l0);
        assert(roottable::cell_of(v, t1, hdr, c) is Ok);
        let t2 = roottable::cell_to(v, t1, hdr, c, CELL_FREE).0;
        tables::lemma_cell_to(v, t1, hdr, c, CELL_FREE);
        assert(roottable::cell_ref(v, t2, hdr, c) is Ok);
        lemma_ref_ok(v, t2, hdr, c, (0u32, 0u16));
    }
}

proof fn lemma_coarsen1_ok(v: Vol, t: Map<u64, Seq<u8>>, hdr: AgHeader, c: int, i: int, sub: Seq<u8>)
    requires
        tables::sound(v, t, hdr),
        tables::holds(v, t, hdr, c, i),
        i < 16,
    ensures
        allocator::coarsen1(
            v,
            t,
            hdr.ag_num,
            tables::held(v, t, hdr, c, 16),
            tables::cell_rec(v, t, hdr, c),
            i,
            tables::held(v, t, hdr, c, i),
            sub,
        ).1 is Ok,
{
    let l0 = tables::held(v, t, hdr, c, 16);
    let l1 = tables::held(v, t, hdr, c, i);
    assert(tables::holds(v, t, hdr, c, 16));
    assert(tables::good_ref(v, t, hdr, l0) && tables::good_ref(v, t, hdr, l1));
    assert(l0 != l1);
    if record::all_in(sub, CELL_FREE) {
        let t1 = allocator::release_rec(v, t, hdr.ag_num, l1).0;
        tables::lemma_release(v, t, hdr, l1);
        assert(tables::good_ref(v, t1, hdr, l0));
    }
}

/// The counters have room for `k` blocks that come back.
pub open spec fn can_give(s: St, k: int) -> bool {
    &&& s.hdr.full_blocks >= k
    &&& s.hdr.free_blocks + k <= u32::MAX
    &&& s.full >= k
    &&& s.free + k <= u64::MAX
}

/// A smallest cell that is in use can be freed from its first block on.
#[verifier::rlimit(40)]
proof fn lemma_free_one_ok(v: Vol, s: St, local: u32)
    requires
        tables::sound(v, s.t, s.hdr),
        local as int / 256 < allocator::cells_in(s.hdr),
        tables::block_state(v, s.t, s.hdr, local as int) == Ok::<u8, FsError>(CELL_FULL),
        local as int % tables::unit(v, s.t, s.hdr, local as int) == 0,
        can_give(s, tables::unit(v, s.t, s.hdr, local as int)),
    ensures
        allocator::free_one(v, s, s.hdr.ag_num, local).1 == Ok::<int, FsError>(
            tables::unit(v, s.t, s.hdr, local as int),
        ),
{
    reveal(allocator::free_one);
    reveal(tables::unit);
    let (t, hdr, ag) = (s.t, s.hdr, s.hdr.ag_num);
    let c = local as int / 256;
    let i = local as int % 256 / 16;
    assert(c == (local / 256) as int && i == (local % 256 / 16) as int);
    if tables::holds(v, t, hdr, c, 16) {
        let l0 = tables::held(v, t, hdr, c, 16);
        assert(tables::good_ref(v, t, hdr, l0));
        let rec = tables::cell_rec(v, t, hdr, c);
        let (s1, r1) = allocator::free_inside(v, s, ag, local, l0, rec);
        if tables::holds(v, t, hdr, c, i) {
            let l1 = tables::held(v, t, hdr, c, i);
            assert(tables::good_ref(v, t, hdr, l1));
            let sub = roottable::record_of(v, t, ag, l1)->Ok_0;
            let j = local as int % 16;
            lemma_coarsen1_ok(v, t, hdr, c, i, fmt::cell_put(sub, j, CELL_FREE));
        }
        assert(r1 == Ok::<int, FsError>(tables::unit(v, t, hdr, local as int)));
        allocator_laws::lemma_free_inside(v, s, local);
        assert(tables::sound(v, s1.t, s1.hdr) && s1.hdr.ag_num == ag) by {
            reveal(allocator_laws::well_given);
        }
        lemma_coarsen0_ok(v, s1, c);
    }
}

/// What is left once a cell was freed.
proof fn lemma_rest_at(v: Vol, s: St, s1: St, b: int, g: int, x: int)
    requires
        0 <= b,
        0 <= g,
        b + g <= x < tables::block_count(s.hdr),
        tables::block_state(v, s.t, s.hdr, x) == Ok::<u8, FsError>(CELL_FULL),
        allocator_laws::well_given(v, s, s1, b, b + g),
    ensures
        tables::block_state(v, s1.t, s1.hdr, x) == Ok::<u8, FsError>(CELL_FULL),
        tables::unit(v, s1.t, s1.hdr, x) == tables::unit(v, s.t, s.hdr, x),
{
    assert(tables::same_place(s.hdr, s1.hdr) && tables::coarser(v, s.t, s1.t, s.hdr)
        && allocator_laws::given_at(v, s.t, s1.t, s.hdr, b, b + g, x)) by {
        reveal(allocator_laws::well_given);
    }
    tables::lemma_state_place(v, s1.t, s.hdr, s1.hdr, x);
    tables::lemma_unit_kept(v, s.t, s1.t, s.hdr, x);
    tables::lemma_unit_place(v, s1.t, s.hdr, s1.hdr, x);
}

/// Blocks `lo` to `hi` are in use.
#[verifier::opaque]
pub open spec fn in_use(v: Vol, t: Map<u64, Seq<u8>>, hdr: AgHeader, lo: int, hi: int) -> bool {
    forall|x: int|
        lo <= x < hi ==> #[trigger] tables::block_state(v, t, hdr, x) == Ok::<u8, FsError>(
            CELL_FULL,
        )
}

proof fn lemma_rest_whole(v: Vol, s: St, s1: St, b: int, g: int, hi: int)
    requires
        0 <= b,
        b < hi <= tables::block_count(s.hdr),
        whole(v, s.t, s.hdr, b, hi, g),
        in_use(v, s.t, s.hdr, b, hi),
        allocator_laws::well_given(v, s, s1, b, b + g),
    ensures
        whole(v, s1.t, s1.hdr, b + g, hi, g),
        in_use(v, s1.t, s1.hdr, b + g, hi),
{
    assert(in_use(v, s1.t, s1.hdr, b + g, hi)) by {
        reveal(whole);
        reveal(in_use);
        assert forall|x: int| b + g <= x < hi implies #[trigger] tables::block_state(
            v,
            s1.t,
            s1.hdr,
            x,
        ) == Ok::<u8, FsError>(CELL_FULL) by {
            assert(tables::block_state(v, s.t, s.hdr, x) == Ok::<u8, FsError>(CELL_FULL));
            lemma_rest_at(v, s, s1, b, g, x);
        }
    }
    assert(whole(v, s1.t, s1.hdr, b + g, hi, g)) by {
        reveal(whole);
        assert forall|x: int| b + g <= x < hi implies #[trigger] tables::unit(
            v,
            s1.t,
            s1.hdr,
            x,
        ) == g by {
            assert(tables::block_state(v, s.t, s.hdr, x) == Ok::<u8, FsError>(CELL_FULL)) by {
                reveal(in_use);
            }
            lemma_rest_at(v, s, s1, b, g, x);
            assert(tables::unit(v, s.t, s.hdr, x) == g);
        }
    }
}

proof fn lemma_whole_first(v: Vol, t: Map<u64, Seq<u8>>, hdr: AgHeader, b: int, hi: int, g: int)
    requires
        whole(v, t, hdr, b, hi, g),
        in_use(v, t, hdr, b, hi),
        b < hi,
    ensures
        tables::unit(v, t, hdr, b) == g,
        tables::block_state(v, t, hdr, b) == Ok::<u8, FsError>(CELL_FULL),
        b % g == 0,
        g == 1 || g == 16 || g == 256,
        b + g <= hi,
{
    reveal(whole);
    assert(tables::block_state(v, t, hdr, b) == Ok::<u8, FsError>(CELL_FULL)) by {
        reveal(in_use);
    }
    if g == 16 {
        assert(b % 16 == 0);
    } else if g == 256 {
        assert(b % 256 == 0);
    }
}

/// Freeing what lies in whole cells that are in use succeeds.
proof fn lemma_free_from_ok(v: Vol, s: St, local0: u32, cur: int, n: int, hi: int, g: int)
    requires
        tables::sound(v, s.t, s.hdr),
        0 <= cur <= hi,
        n <= hi,
        local0 + hi <= tables::block_count(s.hdr),
        whole(v, s.t, s.hdr, local0 + cur, local0 + hi, g),
        in_use(v, s.t, s.hdr, local0 + cur, local0 + hi),
        can_give(s, hi - cur),
    ensures
        allocator::free_from(v, s, s.hdr.ag_num, local0, cur, n).1 is Ok,
    decreases hi - cur,
{
    if cur < n {
        fmt::lemma_ceil_div(s.hdr.length as int, 256);
        assert(local0 + cur <= u32::MAX);
        let local = (local0 + cur) as u32;
        let b = local as int;
        lemma_whole_first(v, s.t, s.hdr, b, local0 + hi, g);
        assert(b / 256 < allocator::cells_in(s.hdr));
        lemma_free_one_ok(v, s, local);
        allocator_laws::lemma_free_one(v, s, local);
        allocator_laws::lemma_one_returned(v, s, s.hdr.ag_num, local);
        let (s1, r1) = allocator::free_one(v, s, s.hdr.ag_num, local);
        lemma_rest_whole(v, s, s1, b, g, local0 + hi);
        assert(tables::sound(v, s1.t, s1.hdr) && tables::same_place(s.hdr, s1.hdr)) by {
            reveal(allocator_laws::well_given);
        }
        lemma_free_from_ok(v, s1, local0, cur + g, n, hi, g);
    }
}

// --- arenas -------------------------------------------------------------------

/// At most one cell has become an arena of the table.
pub open spec fn one_arena(s: St, s1: St) -> bool {
    s1.rsvd == s.rsvd || s1.rsvd == s.rsvd + 256
}

proof fn lemma_claim_arena(v: Vol, s: St)
    ensures
        one_arena(s, allocator::claim_rec(v, s).0),
{
}

proof fn lemma_refine0_arena(v: Vol, s: St, c: int)
    ensures
        one_arena(s, allocator::refine0(v, s, c).0),
{
    lemma_claim_arena(
        v,
        St { t: roottable::cell_to(v, s.t, s.hdr, c, CELL_REFINED).0, ..s },
    );
}

proof fn lemma_mark_arena(
    v: Vol,
    s: St,
    r: (u32, u16),
    rec: Seq<u8>,
    lo: int,
    hi: int,
    n: int,
    blk: int,
)
    ensures
        allocator::mark(v, s, r, rec, lo, hi, n, blk).0.rsvd == s.rsvd,
{
}

proof fn lemma_part_arena(v: Vol, s: St, l0: (u32, u16), i: int, n: int, blk: int)
    ensures
        allocator::refine_and_mark(v, s, l0, i, n, blk).0.rsvd == allocator::claim_rec(
            v,
            s,
        ).0.rsvd,
{
    let (s1, r1) = allocator::refine1(v, s, l0, i);
    assert(s1.rsvd == allocator::claim_rec(v, s).0.rsvd);
    if let Ok(l1) = r1 {
        if let Ok(rec) = roottable::record_of(v, s1.t, s1.hdr.ag_num, l1) {
            lemma_mark_arena(v, s1, l1, rec, 0, n, n, blk);
        }
    }
}

/// A fresh arena has a record to spare.
proof fn lemma_spare_in_fresh(v: Vol, s: St, c: int)
    requires
        v.bs >= 384,
        tables::sound(v, s.t, s.hdr),
        0 <= c < allocator::cells_in(s.hdr),
        roottable::cell_of(v, s.t, s.hdr, c) == Ok::<u8, FsError>(CELL_FREE),
        allocator::refine0(v, s, c).1 is Ok,
        allocator::refine0(v, s, c).0.rsvd != s.rsvd,
    ensures
        ({
            let s1 = allocator::refine0(v, s, c).0;
            allocator::claim_rec(v, s1).0.rsvd == s1.rsvd
        }),
{
    let hdr = s.hdr;
    let ag = hdr.ag_num;
    let s1 = allocator::refine0(v, s, c).0;
    let ta = roottable::cell_to(v, s.t, hdr, c, CELL_REFINED).0;
    let sa = St { t: ta, ..s };
    let (sb, rb) = allocator::claim_rec(v, sa);
    tables::lemma_flip(v, s.t, hdr, c);
    assert((sb, rb) == allocator::new_arena(v, sa));
    tables::lemma_claim(v, sa, c);
    let cells = allocator::cells_in(hdr);
    tables::lemma_first_cell(v, ta, hdr, CELL_FREE, 0, cells);
    let d = roottable::first_cell(v, ta, hdr, CELL_FREE, 0, cells)->Some_0;
    let arena = (d * 256) as u32;
    let tb = roottable::cell_to(v, ta, hdr, d, fmt::CELL_RSVD).0;
    tables::lemma_cell_to(v, ta, hdr, d, fmt::CELL_RSVD);
    tables::lemma_fresh_arena(v, tb, ag, arena);
    assert(roottable::record_of(v, sb.t, ag, (arena, 0u16)) is Ok);
    tables::law_cell_reference_reads_back(v, sb.t, sb.hdr, c, rb->Ok_0);
    assert(tables::off_root(sb.hdr, v.bs, arena));
    assert(vol::rd(v, s1.t, fmt::addr_of(ag, arena)) == vol::rd(
        v,
        sb.t,
        fmt::addr_of(ag, arena),
    ));
    assert(tables::used_bits(v, s1.t, ag, arena) == 1);
    assert(record::ones(1) == 1) by {
        reveal_with_fuel(record::ones, 2);
    }
    assert(s1.hdr.tbl_arena != 0) by {
        let l = fs::header_local(ag);
        assert(!tables::off_root(hdr, v.bs, l));
        assert(l as int / 256 == 0);
    }
}

proof fn lemma_new_arena(v: Vol, s: St, n: int, c: int)
    requires
        v.bs >= 384,
        sane(v, s),
        roottable::first_cell(v, s.t, s.hdr, CELL_FREE, 0, allocator::cells_in(s.hdr)) == Some(c),
        allocator::refine0(v, s, c).1 is Ok,
    ensures
        ({
            let (s1, r1) = allocator::refine0(v, s, c);
            one_arena(s, allocator::refine_and_mark(v, s1, r1->Ok_0, 0, n, c * 256).0)
        }),
{
    let (s1, r1) = allocator::refine0(v, s, c);
    lemma_refine0_arena(v, s, c);
    lemma_part_arena(v, s1, r1->Ok_0, 0, n, c * 256);
    lemma_claim_arena(v, s1);
    if s1.rsvd != s.rsvd {
        reveal(sane);
        tables::lemma_first_cell(v, s.t, s.hdr, CELL_FREE, 0, allocator::cells_in(s.hdr));
        lemma_spare_in_fresh(v, s, c);
    }
}

/// Taking up to 16 blocks turns at most one cell into an arena.
proof fn lemma_alloc2_arena(v: Vol, s: St, n: int)
    requires
        v.bs >= 384,
        sane(v, s),
        allocator::alloc2(v, s, n).1 is Ok,
    ensures
        one_arena(s, allocator::alloc2(v, s, n).0),
{
    match allocator::room2(v, s.t, s.hdr, n, 0)->Ok_0 {
        Some((blk, l1, rec, start)) => {
            lemma_mark_arena(v, s, l1, rec, start, start + n, n, blk);
        },
        None => match allocator::spare1(v, s.t, s.hdr, 0)->Ok_0 {
            Some((c, l0, i)) => {
                lemma_part_arena(v, s, l0, i, n, c * 256 + i * 16);
                lemma_claim_arena(v, s);
            },
            None => {
                let cells = allocator::cells_in(s.hdr);
                let c = roottable::first_cell(v, s.t, s.hdr, CELL_FREE, 0, cells)->Some_0;
                lemma_new_arena(v, s, n, c);
            },
        },
    }
}

/// Taking up to 256 blocks turns at most one cell into an arena.
proof fn lemma_alloc1_arena(v: Vol, s: St, m: int)
    requires
        allocator::alloc1(v, s, m).1 is Ok,
    ensures
        one_arena(s, allocator::alloc1(v, s, m).0),
{
    match allocator::room1(v, s.t, s.hdr, m, 0)->Ok_0 {
        Some((c, r, rec, start)) => {
            lemma_mark_arena(v, s, r, rec, start, start + m, m * 16, c * 256 + start * 16);
        },
        None => {
            let cells = allocator::cells_in(s.hdr);
            let c = roottable::first_cell(v, s.t, s.hdr, CELL_FREE, 0, cells)->Some_0;
            lemma_refine0_arena(v, s, c);
            let (s1, r1) = allocator::refine0(v, s, c);
            let r = r1->Ok_0;
            let rec = roottable::record_of(v, s1.t, s1.hdr.ag_num, r)->Ok_0;
            lemma_mark_arena(v, s1, r, rec, 0, m, m * 16, c * 256);
        },
    }
}

proof fn lemma_some_arena(v: Vol, s: St, n: int)
    requires
        v.bs >= 384,
        sane(v, s),
        allocator::alloc_some(v, s, n).1 is Ok,
    ensures
        one_arena(s, allocator::alloc_some(v, s, n).0),
{
    if n >= 256 {
    } else if n > 16 {
        lemma_alloc1_arena(v, s, fmt::ceil_div(n, 16));
    } else {
        lemma_alloc2_arena(v, s, n);
    }
}

// --- the law ------------------------------------------------------------------

proof fn lemma_free_gen(v: Vol, s: St, ag: u32, local0: u32, cur: int, n: int)
    ensures
        allocator::free_from(v, s, ag, local0, cur, n).0.hdr.gen == s.hdr.gen,
    decreases
            if cur < n {
                n - cur
            } else {
                0
            },
{
    if cur < n && local0 + cur <= u32::MAX {
        let (s1, r1) = allocator::free_one(v, s, ag, (local0 + cur) as u32);
        assert(s1.hdr.gen == s.hdr.gen) by {
            reveal(allocator::free_one);
        }
        if let Ok(k) = r1 {
            if k > 0 {
                lemma_free_gen(v, s1, ag, local0, cur + k, n);
            }
        }
    }
}

/// The tables after the blocks were taken: the blocks are in use, in whole cells.
proof fn lemma_after_grant(v: Vol, s: St, n: int)
    requires
        tables::sound(v, s.t, s.hdr),
        1 <= n,
        allocator::alloc_some(v, s, n).1 is Ok,
        allocator::header_to(allocator::alloc_some(v, s, n).0, v.bs).1 is Ok,
    ensures
        ({
            let (s1, r1) = allocator::alloc_some(v, s, n);
            let s2 = allocator::header_to(s1, v.bs).0;
            let b = fmt::addr_local(r1->Ok_0) as int;
            let hi = b + allocator_laws::granted(n);
            &&& tables::sound(v, s2.t, s2.hdr)
            &&& tables::same_place(s.hdr, s2.hdr)
            &&& fs::header_of(v, s2.t, s.hdr.ag_num) == Ok::<AgHeader, FsError>(s2.hdr)
            &&& hi <= tables::block_count(s2.hdr)
            &&& whole(v, s2.t, s2.hdr, b, hi, grain(n))
            &&& in_use(v, s2.t, s2.hdr, b, hi)
        }),
{
    let (s1, r1) = allocator::alloc_some(v, s, n);
    let s2 = allocator::header_to(s1, v.bs).0;
    let b = fmt::addr_local(r1->Ok_0) as int;
    let hi = b + allocator_laws::granted(n);
    lemma_granted_whole(v, s, n);
    allocator_laws::lemma_some_taken(v, s, n);
    assert(tables::sound(v, s1.t, s1.hdr) && tables::same_place(s.hdr, s1.hdr)
        && allocator_laws::taken(v, s.t, s1.t, s.hdr, b, hi)) by {
        reveal(allocator_laws::well_taken);
    }
    tables::lemma_header_to(v, s1);
    assert(whole(v, s2.t, s2.hdr, b, hi, grain(n))) by {
        reveal(whole);
        assert forall|x: int| b <= x < hi implies #[trigger] tables::unit(v, s2.t, s2.hdr, x)
            == grain(n) by {
            tables::lemma_unit_form(v, s1.t, s2.t, s1.hdr, x);
            tables::lemma_unit_place(v, s2.t, s1.hdr, s2.hdr, x);
            assert(tables::unit(v, s1.t, s1.hdr, x) == grain(n));
        }
    }
    assert(in_use(v, s2.t, s2.hdr, b, hi)) by {
        reveal(in_use);
        assert forall|x: int| b <= x < hi implies #[trigger] tables::block_state(
            v,
            s2.t,
            s2.hdr,
            x,
        ) == Ok::<u8, FsError>(CELL_FULL) by {
            assert(allocator_laws::taken_at(v, s.t, s1.t, s.hdr, b, hi, x));
            tables::lemma_state_place(v, s2.t, s1.hdr, s2.hdr, x);
            tables::lemma_state_place(v, s1.t, s.hdr, s1.hdr, x);
            assert(tables::block_state(v, s2.t, s1.hdr, x) == tables::block_state(
                v,
                s1.t,
                s1.hdr,
                x,
            ));
        }
    }
}

/// The cell around the last block of `n` ends where what was granted ends.
proof fn lemma_grant_end(v: Vol, t: Map<u64, Seq<u8>>, hdr: AgHeader, b: int, n: int)
    requires
        0 <= b,
        1 <= n,
        whole(v, t, hdr, b, b + allocator_laws::granted(n), grain(n)),
    ensures
        allocator_laws::freed_end(v, t, hdr, b, n) == b + allocator_laws::granted(n),
{
    lemma_granted(n);
    let g = grain(n);
    let y = b + n - 1;
    let w = b + allocator_laws::granted(n) - g;
    assert(b <= w <= y < w + g);
    assert(tables::unit(v, t, hdr, w) == g && w % g == 0) by {
        reveal(whole);
        if g == 16 {
            assert(w % 16 == 0);
        } else if g == 256 {
            assert(w % 256 == 0);
        }
    }
    allocator_laws::lemma_last_unit(v, t, hdr, w, y);
}

/// The counters after the blocks were taken.
proof fn lemma_grant_counts(v: Vol, s: St, n: int)
    requires
        v.bs >= 384,
        tables::sound(v, s.t, s.hdr),
        1 <= n,
        allocator::alloc_some(v, s, n).1 is Ok,
    ensures
        ({
            let s1 = allocator::alloc_some(v, s, n).0;
            &&& can_give(s1, allocator_laws::granted(n))
            &&& allocator_laws::balanced(s, s1, allocator_laws::granted(n))
            &&& one_arena(s, s1)
        }),
{
    allocator_laws::lemma_some_balanced(v, s, n);
    assert(sane(v, s)) by {
        reveal(sane);
    }
    lemma_some_arena(v, s, n);
}

proof fn lemma_granted(n: int)
    requires
        1 <= n,
    ensures
        n <= allocator_laws::granted(n) < n + grain(n),
{
    if n >= 256 {
        fmt::lemma_ceil_div(n, 256);
    } else if n > 16 {
        fmt::lemma_ceil_div(n, 16);
    }
}

proof fn lemma_grant_freed(v: Vol, s: St, blk: u64, n: int)
    requires
        tables::sound(v, s.t, s.hdr),
        1 <= n,
        fs::header_of(v, s.t, s.hdr.ag_num) == Ok::<AgHeader, FsError>(s.hdr),
        fmt::addr_ag(blk) == s.hdr.ag_num,
        fmt::addr_local(blk) + allocator_laws::granted(n) <= tables::block_count(s.hdr),
        whole(
            v,
            s.t,
            s.hdr,
            fmt::addr_local(blk) as int,
            fmt::addr_local(blk) + allocator_laws::granted(n),
            grain(n),
        ),
        in_use(
            v,
            s.t,
            s.hdr,
            fmt::addr_local(blk) as int,
            fmt::addr_local(blk) + allocator_laws::granted(n),
        ),
        can_give(s, allocator_laws::granted(n)),
        s.hdr.gen < u64::MAX,
    ensures
        allocator::freed(v, allocator::pool(s), blk, n).1 is Ok,
{
    reveal(allocator::freed);
    let local = fmt::addr_local(blk);
    lemma_granted(n);
    assert(allocator::with_hdr(allocator::pool(s), s.hdr) == s);
    lemma_free_from_ok(v, s, local, 0, n, allocator_laws::granted(n), grain(n));
    lemma_free_gen(v, s, s.hdr.ag_num, local, 0, n);
}

proof fn lemma_given_place(
    v: Vol,
    t: Map<u64, Seq<u8>>,
    t1: Map<u64, Seq<u8>>,
    a: AgHeader,
    hdr: AgHeader,
    lo: int,
    hi: int,
)
    requires
        tables::same_place(hdr, a),
        allocator_laws::given(v, t, t1, a, lo, hi),
    ensures
        allocator_laws::given(v, t, t1, hdr, lo, hi),
{
    assert forall|x: int| 0 <= x < tables::block_count(hdr) implies #[trigger] allocator_laws::given_at(
        v,
        t,
        t1,
        hdr,
        lo,
        hi,
        x,
    ) by {
        assert(allocator_laws::given_at(v, t, t1, a, lo, hi, x));
        tables::lemma_state_place(v, t, hdr, a, x);
        tables::lemma_state_place(v, t1, hdr, a, x);
    }
}

/// What an allocation granted can be freed by the same address and length. The blocks
/// that were granted are then free, every other block is as it was, and the counters
/// are what they were before the allocation, but for a cell that has become an arena
/// of the table.
pub proof fn law_allocated_extent_can_be_freed(v: Vol, p: Pool, ag: u32, hdr: AgHeader, n: int)
    requires
        v.bs >= 384,
        1 <= n,
        fs::header_of(v, p.t, ag) == Ok::<AgHeader, FsError>(hdr),
        hdr.ag_num == ag,
        hdr.gen + 2 <= u64::MAX,
        tables::sound(v, p.t, hdr),
        allocator::allocated(v, p, ag, n).1 is Ok,
    ensures
        ({
            let (p1, r1) = allocator::allocated(v, p, ag, n);
            let b = fmt::addr_local(r1->Ok_0) as int;
            let (p2, r2) = allocator::freed(v, p1, r1->Ok_0, n);
            &&& r2 is Ok
            &&& allocator_laws::given(v, p1.t, p2.t, hdr, b, b + allocator_laws::granted(n))
            &&& p2.full == p.full
            &&& p2.free + p2.rsvd == p.free + p.rsvd
            &&& p2.free == p.free || p2.free == p.free - 256
        }),
{
    let (p1, r1) = allocator::allocated(v, p, ag, n);
    let blk = r1->Ok_0;
    let b = fmt::addr_local(blk) as int;
    let hi = b + allocator_laws::granted(n);
    let s = allocator::with_hdr(p, hdr);
    let s1 = allocator::alloc_some(v, s, n).0;
    let s2 = allocator::header_to(s1, v.bs).0;
    assert(allocator::alloc_some(v, s, n).1 == r1 && allocator::header_to(s1, v.bs).1 is Ok && p1
        == allocator::pool(s2)) by {
        reveal(allocator::allocated);
    }
    allocator_laws::law_allocated_blocks_were_free(v, p, ag, n);
    lemma_grant_counts(v, s, n);
    lemma_after_grant(v, s, n);
    lemma_grant_freed(v, s2, blk, n);
    free_laws::law_freeing_counts_its_blocks(v, p1, blk, s2.hdr, n);
    lemma_grant_end(v, s2.t, s2.hdr, b, n);
    let p2 = allocator::freed(v, p1, blk, n).0;
    lemma_given_place(v, p1.t, p2.t, s2.hdr, hdr, b, hi);
}

} // verus!
