//! What freeing leaves alone: it writes to the tables of its own group only.

use crate::allocator::{Pool, St};
use crate::error::FsError;
use crate::fmt::{CELL_FREE, CELL_FULL, CELL_REFINED, CELL_RSVD};
use crate::header::AgHeader;
use crate::vol::Vol;
use vstd::prelude::*;

use crate::allocator;
use crate::allocator_laws;
use crate::fmt;
use crate::fs;
use crate::record;
use crate::roottable;
use crate::spares;
use crate::tables;
use crate::vol;

verus! {

/// Address `x` is in another group, or that of a block that is free or in use:
/// none that the tables stand in.
pub open spec fn idle(v: Vol, t: Map<u64, Seq<u8>>, hdr: AgHeader, x: u64) -> bool {
    ||| fmt::addr_ag(x) != hdr.ag_num
    ||| (fmt::addr_local(x) < tables::block_count(hdr) && (tables::block_state(
        v,
        t,
        hdr,
        fmt::addr_local(x) as int,
    ) == Ok::<u8, FsError>(CELL_FULL) || tables::block_state(
        v,
        t,
        hdr,
        fmt::addr_local(x) as int,
    ) == Ok::<u8, FsError>(CELL_FREE)))
}

/// From `t` to `t1` nothing was written but to the tables.
pub open spec fn quiet(v: Vol, t: Map<u64, Seq<u8>>, t1: Map<u64, Seq<u8>>, hdr: AgHeader) -> bool {
    forall|x: u64| idle(v, t, hdr, x) ==> #[trigger] vol::rd(v, t1, x) == vol::rd(v, t, x)
}

/// Headers that place the tables alike.
pub proof fn lemma_idle_place(v: Vol, t: Map<u64, Seq<u8>>, a: AgHeader, b: AgHeader, x: u64)
    requires
        tables::same_place(a, b),
    ensures
        idle(v, t, a, x) == idle(v, t, b, x),
{
    tables::lemma_state_place(v, t, a, b, fmt::addr_local(x) as int);
}

proof fn lemma_quiet_place(
    v: Vol,
    t0: Map<u64, Seq<u8>>,
    t: Map<u64, Seq<u8>>,
    a: AgHeader,
    b: AgHeader,
)
    requires
        tables::same_place(a, b),
    ensures
        quiet(v, t0, t, a) == quiet(v, t0, t, b),
{
    assert forall|x: u64| #[trigger] idle(v, t0, a, x) == idle(v, t0, b, x) by {
        lemma_idle_place(v, t0, a, b, x);
    }
}

/// A block that is written, in a reserved cell.
proof fn lemma_quiet_insert(
    v: Vol,
    t0: Map<u64, Seq<u8>>,
    t: Map<u64, Seq<u8>>,
    hdr: AgHeader,
    l: u32,
    b: Seq<u8>,
)
    requires
        quiet(v, t0, t, hdr),
        l as int / 256 < allocator::cells_in(hdr) ==> roottable::cell_of(
            v,
            t0,
            hdr,
            l as int / 256,
        ) == Ok::<u8, FsError>(CELL_RSVD),
    ensures
        quiet(v, t0, t.insert(fmt::addr_of(hdr.ag_num, l), b), hdr),
{
    let t1 = t.insert(fmt::addr_of(hdr.ag_num, l), b);
    fmt::law_address_halves(hdr.ag_num, l, 0);
    assert forall|x: u64| idle(v, t0, hdr, x) implies #[trigger] vol::rd(v, t1, x) == vol::rd(
        v,
        t0,
        x,
    ) by {
        assert(vol::rd(v, t, x) == vol::rd(v, t0, x));
    }
}

/// A block of the root table that is written.
proof fn lemma_quiet_root(
    v: Vol,
    t0: Map<u64, Seq<u8>>,
    t: Map<u64, Seq<u8>>,
    hdr: AgHeader,
    off: int,
    x: u8,
)
    requires
        tables::base_sound(v, t0, hdr),
        quiet(v, t0, t, hdr),
        0 <= off < tables::root_bytes(hdr),
    ensures
        quiet(v, t0, roottable::rt_put(v, t, hdr, off, x).0, hdr),
{
    if let Ok((blk, o, b)) = roottable::rt_at(v, t, hdr, off) {
        tables::lemma_root_block(hdr, v.bs, off);
        let l = (hdr.alloc_root + off / v.bs as int) as u32;
        assert(!tables::off_root(hdr, v.bs, l));
        lemma_quiet_insert(v, t0, t, hdr, l, b.update(o, x));
    }
}

proof fn lemma_quiet_puts(
    v: Vol,
    t0: Map<u64, Seq<u8>>,
    t: Map<u64, Seq<u8>>,
    hdr: AgHeader,
    off: int,
    xs: Seq<u8>,
)
    requires
        tables::base_sound(v, t0, hdr),
        quiet(v, t0, t, hdr),
        0 <= off,
        off + xs.len() <= tables::root_bytes(hdr),
    ensures
        quiet(v, t0, roottable::rt_puts(v, t, hdr, off, xs).0, hdr),
    decreases xs.len(),
{
    if xs.len() > 0 {
        lemma_quiet_root(v, t0, t, hdr, off, xs[0]);
        let (t1, r) = roottable::rt_put(v, t, hdr, off, xs[0]);
        if r is Ok {
            lemma_quiet_puts(v, t0, t1, hdr, off + 1, xs.skip(1));
        }
    }
}

proof fn lemma_quiet_cell(
    v: Vol,
    t0: Map<u64, Seq<u8>>,
    t: Map<u64, Seq<u8>>,
    hdr: AgHeader,
    c: int,
    st: u8,
)
    requires
        tables::base_sound(v, t0, hdr),
        quiet(v, t0, t, hdr),
        0 <= c < allocator::cells_in(hdr),
    ensures
        quiet(v, t0, roottable::cell_to(v, t, hdr, c, st).0, hdr),
{
    tables::lemma_cell_offs(hdr, c);
    let x = fmt::with_quarter(roottable::rt_get(v, t, hdr, c / 4)->Ok_0, c % 4, st);
    assert(roottable::cell_to(v, t, hdr, c, st).0 == roottable::rt_put(v, t, hdr, c / 4, x).0);
    lemma_quiet_root(v, t0, t, hdr, c / 4, x);
}

// --- freeing ------------------------------------------------------------------

/// Blocks of the tables that are written.
proof fn lemma_quiet_table(
    v: Vol,
    t0: Map<u64, Seq<u8>>,
    t: Map<u64, Seq<u8>>,
    hdr: AgHeader,
    l: u32,
    b: Seq<u8>,
)
    requires
        quiet(v, t0, t, hdr),
        roottable::cell_of(v, t0, hdr, l as int / 256) == Ok::<u8, FsError>(CELL_RSVD),
    ensures
        quiet(v, t0, roottable::table_to(t, hdr.ag_num, l, b), hdr),
{
    lemma_quiet_insert(v, t0, t, hdr, l, roottable::table_image(b));
}

/// Freeing in a refined cell writes to the tables only.
#[verifier::rlimit(40)]
proof fn lemma_quiet_free_inside(v: Vol, s: St, local: u32)
    requires
        tables::sound(v, s.t, s.hdr),
        tables::holds(v, s.t, s.hdr, local as int / 256, 16),
    ensures
        ({
            let c = local as int / 256;
            let l0 = tables::held(v, s.t, s.hdr, c, 16);
            let s1 = allocator::free_inside(
                v,
                s,
                s.hdr.ag_num,
                local,
                l0,
                tables::cell_rec(v, s.t, s.hdr, c),
            ).0;
            quiet(v, s.t, s1.t, s.hdr)
        }),
{
    let c = local as int / 256;
    let i = (local % 256 / 16) as int;
    let j = (local % 16) as int;
    let t = s.t;
    let ag = s.hdr.ag_num;
    let l0 = tables::held(v, t, s.hdr, c, 16);
    let rec = tables::cell_rec(v, t, s.hdr, c);
    assert(tables::good_ref(v, t, s.hdr, l0));
    let st = fmt::cell_at(rec, i);
    if st == CELL_FULL {
        if let Ok(b) = roottable::table_of(v, t, ag, l0.0) {
            let off = roottable::rec_off_of(l0.1);
            let new = fmt::cell_put(rec, i, CELL_FREE);
            lemma_quiet_table(v, t, t, s.hdr, l0.0, fmt::splice(b, off, new));
        }
    } else if st == CELL_REFINED {
        assert(tables::holds(v, t, s.hdr, c, i));
        let l1 = tables::held(v, t, s.hdr, c, i);
        assert(tables::good_ref(v, t, s.hdr, l1));
        if let Ok(sub) = roottable::record_of(v, t, ag, l1) {
            lemma_quiet_coarsen1(v, t, s.hdr, l0, rec, i, l1, fmt::cell_put(sub, j, CELL_FREE));
        }
    }
}

/// Collapsing a child writes to the tables only.
proof fn lemma_quiet_coarsen1(
    v: Vol,
    t: Map<u64, Seq<u8>>,
    hdr: AgHeader,
    l0: (u32, u16),
    l0rec: Seq<u8>,
    i: int,
    l1: (u32, u16),
    l1rec: Seq<u8>,
)
    requires
        tables::good_ref(v, t, hdr, l0),
        tables::good_ref(v, t, hdr, l1),
    ensures
        quiet(v, t, allocator::coarsen1(v, t, hdr.ag_num, l0, l0rec, i, l1, l1rec).0, hdr),
{
    let ag = hdr.ag_num;
    if let Ok(b) = roottable::table_of(v, t, ag, l1.0) {
        let off = roottable::rec_off_of(l1.1);
        lemma_quiet_table(v, t, t, hdr, l1.0, fmt::splice(b, off, l1rec));
        lemma_quiet_table(v, t, t, hdr, l1.0, allocator::released(b, l1.1 as int));
        let t1 = allocator::release_rec(v, t, ag, l1).0;
        if let Ok(b0) = roottable::table_of(v, t1, ag, l0.0) {
            let new = record::with_ref(fmt::cell_put(l0rec, i, CELL_FREE), i, (0u32, 0u16));
            lemma_quiet_table(
                v,
                t,
                t1,
                hdr,
                l0.0,
                fmt::splice(b0, roottable::rec_off_of(l0.1), new),
            );
        }
    }
}

/// Collapsing a cell writes to the tables only.
#[verifier::rlimit(60)]
proof fn lemma_quiet_coarsen0(v: Vol, t0: Map<u64, Seq<u8>>, s: St, c: int, l0: (u32, u16))
    requires
        tables::base_sound(v, t0, s.hdr),
        quiet(v, t0, s.t, s.hdr),
        0 <= c < allocator::cells_in(s.hdr),
        roottable::cell_of(v, t0, s.hdr, l0.0 as int / 256) == Ok::<u8, FsError>(CELL_RSVD),
    ensures
        quiet(v, t0, allocator::coarsen0(v, s, s.hdr.ag_num, c, l0).0.t, s.hdr),
{
    let ag = s.hdr.ag_num;
    if let Ok(b) = roottable::table_of(v, s.t, ag, l0.0) {
        lemma_quiet_table(v, t0, s.t, s.hdr, l0.0, allocator::released(b, l0.1 as int));
    }
    let t1 = allocator::release_rec(v, s.t, ag, l0).0;
    assert(quiet(v, t0, t1, s.hdr));
    let t2 = roottable::cell_to(v, t1, s.hdr, c, CELL_FREE).0;
    assert(quiet(v, t0, t2, s.hdr)) by {
        lemma_quiet_cell(v, t0, t1, s.hdr, c, CELL_FREE);
    }
    let xs = roottable::ref_bytes((0u32, 0u16));
    let off = roottable::cell_ref_off(s.hdr, c);
    assert(quiet(v, t0, roottable::rt_puts(v, t2, s.hdr, off, xs).0, s.hdr)) by {
        tables::lemma_cell_offs(s.hdr, c);
        assert(xs.len() == 6);
        lemma_quiet_puts(v, t0, t2, s.hdr, off, xs);
    }
}

/// Freeing what starts at a block writes to the tables only.
#[verifier::rlimit(40)]
proof fn lemma_quiet_free_one(v: Vol, s: St, local: u32)
    requires
        tables::sound(v, s.t, s.hdr),
        local as int / 256 < allocator::cells_in(s.hdr),
        allocator::free_one(v, s, s.hdr.ag_num, local).1 is Ok,
    ensures
        quiet(v, s.t, allocator::free_one(v, s, s.hdr.ag_num, local).0.t, s.hdr),
{
    reveal(allocator::free_one);
    let c = local as int / 256;
    let hdr = s.hdr;
    let st = roottable::cell_of(v, s.t, hdr, c);
    if st == Ok::<u8, FsError>(CELL_FULL) {
        lemma_quiet_cell(v, s.t, s.t, hdr, c, CELL_FREE);
    } else if st == Ok::<u8, FsError>(CELL_REFINED) {
        assert(tables::holds(v, s.t, hdr, c, 16));
        let l0 = tables::held(v, s.t, hdr, c, 16);
        assert(tables::good_ref(v, s.t, hdr, l0));
        lemma_quiet_free_inside(v, s, local);
        let (s1, r1) = allocator::free_inside(
            v,
            s,
            hdr.ag_num,
            local,
            l0,
            tables::cell_rec(v, s.t, hdr, c),
        );
        if r1 is Ok {
            assert(tables::same_place(hdr, s1.hdr) && s1.hdr.tbl_arena == hdr.tbl_arena);
            spares::lemma_base_place(v, s.t, hdr, s1.hdr);
            lemma_quiet_place(v, s.t, s1.t, hdr, s1.hdr);
            tables::lemma_same_place(v, s.t, hdr, s1.hdr);
            lemma_quiet_coarsen0(v, s.t, s1, c, l0);
            let s2 = allocator::coarsen0(v, s1, hdr.ag_num, c, l0).0;
            lemma_quiet_place(v, s.t, s2.t, hdr, s1.hdr);
        }
    }
}

/// What freeing leaves: blocks off the tables hold what they held, and are off the
/// tables still.
pub open spec fn leaves(v: Vol, t: Map<u64, Seq<u8>>, t1: Map<u64, Seq<u8>>, hdr: AgHeader) -> bool {
    &&& quiet(v, t, t1, hdr)
    &&& forall|x: u64| idle(v, t, hdr, x) ==> #[trigger] idle(v, t1, hdr, x)
}

/// A block off the tables is so after freeing.
proof fn lemma_idle_stays(v: Vol, s: St, s1: St, lo: int, hi: int, x: u64)
    requires
        allocator_laws::well_given(v, s, s1, lo, hi),
        idle(v, s.t, s.hdr, x),
    ensures
        idle(v, s1.t, s.hdr, x),
{
    reveal(allocator_laws::well_given);
    if fmt::addr_ag(x) == s.hdr.ag_num {
        assert(allocator_laws::given_at(
            v,
            s.t,
            s1.t,
            s.hdr,
            lo,
            hi,
            fmt::addr_local(x) as int,
        ));
    }
}

/// Freeing in two steps.
proof fn lemma_leaves_twice(
    v: Vol,
    t: Map<u64, Seq<u8>>,
    hdr: AgHeader,
    t1: Map<u64, Seq<u8>>,
    hdr1: AgHeader,
    t2: Map<u64, Seq<u8>>,
)
    requires
        tables::same_place(hdr, hdr1),
        leaves(v, t, t1, hdr),
        leaves(v, t1, t2, hdr1),
    ensures
        leaves(v, t, t2, hdr),
{
    assert forall|x: u64| idle(v, t, hdr, x) implies #[trigger] idle(v, t2, hdr, x) by {
        assert(idle(v, t1, hdr, x));
        lemma_idle_place(v, t1, hdr, hdr1, x);
        assert(idle(v, t2, hdr1, x));
        lemma_idle_place(v, t2, hdr, hdr1, x);
    }
    assert forall|x: u64| idle(v, t, hdr, x) implies #[trigger] vol::rd(v, t2, x) == vol::rd(
        v,
        t,
        x,
    ) by {
        assert(vol::rd(v, t1, x) == vol::rd(v, t, x));
        assert(idle(v, t1, hdr, x));
        lemma_idle_place(v, t1, hdr, hdr1, x);
    }
}

/// Freeing from a block on writes to the tables only.
#[verifier::rlimit(40)]
proof fn lemma_leaves_free_from(v: Vol, s: St, local0: u32, cur: int, n: int)
    requires
        tables::sound(v, s.t, s.hdr),
        0 <= cur,
        local0 + n <= tables::block_count(s.hdr),
        allocator::free_from(v, s, s.hdr.ag_num, local0, cur, n).1 is Ok,
    ensures
        leaves(v, s.t, allocator::free_from(v, s, s.hdr.ag_num, local0, cur, n).0.t, s.hdr),
    decreases
            if cur < n {
                n - cur
            } else {
                0
            },
{
    if cur < n && local0 + cur <= u32::MAX {
        let local = (local0 + cur) as u32;
        assert(local as int / 256 < allocator::cells_in(s.hdr));
        lemma_quiet_free_one(v, s, local);
        let (s1, r1) = allocator::free_one(v, s, s.hdr.ag_num, local);
        let k = r1->Ok_0;
        assert(k > 0 && allocator_laws::well_given(v, s, s1, local as int, local + k)) by {
            allocator_laws::lemma_free_one(v, s, local);
            reveal(tables::unit);
        }
        assert(tables::sound(v, s1.t, s1.hdr) && tables::same_place(s.hdr, s1.hdr)) by {
            reveal(allocator_laws::well_given);
        }
        assert forall|x: u64| idle(v, s.t, s.hdr, x) implies #[trigger] idle(
            v,
            s1.t,
            s.hdr,
            x,
        ) by {
            lemma_idle_stays(v, s, s1, local as int, local + k, x);
        }
        lemma_leaves_free_from(v, s1, local0, cur + k, n);
        let s2 = allocator::free_from(v, s1, s.hdr.ag_num, local0, cur + k, n).0;
        lemma_leaves_twice(v, s.t, s.hdr, s1.t, s1.hdr, s2.t);
    }
}

/// Freeing writes to the tables of the group and to nothing else: every block of
/// another group, and every block of the group that is free or in use, holds what
/// it held.
pub proof fn law_freeing_writes_to_tables_only(v: Vol, p: Pool, blk: u64, hdr: AgHeader, n: int)
    requires
        0 <= n,
        fs::header_of(v, p.t, fmt::addr_ag(blk)) == Ok::<AgHeader, FsError>(hdr),
        hdr.ag_num == fmt::addr_ag(blk),
        tables::sound(v, p.t, hdr),
        fmt::addr_local(blk) + n <= tables::block_count(hdr),
        allocator::freed(v, p, blk, n).1 is Ok,
    ensures
        leaves(v, p.t, allocator::freed(v, p, blk, n).0.t, hdr),
{
    reveal(allocator::freed);
    let s = allocator::with_hdr(p, hdr);
    let local = fmt::addr_local(blk);
    lemma_leaves_free_from(v, s, local, 0, n);
    let end = allocator_laws::lemma_free_from(v, s, local, 0, n);
    let s1 = allocator::free_from(v, s, hdr.ag_num, local, 0, n).0;
    assert(tables::same_place(hdr, s1.hdr) && tables::sound(v, s1.t, s1.hdr)) by {
        reveal(allocator_laws::well_given);
    }
    lemma_leaves_header(v, s1);
    lemma_leaves_twice(v, s.t, hdr, s1.t, s1.hdr, allocator::header_to(s1, v.bs).0.t);
}

/// Storing the header writes to the tables only.
proof fn lemma_leaves_header(v: Vol, s: St)
    requires
        tables::sound(v, s.t, s.hdr),
        allocator::header_to(s, v.bs).1 is Ok,
    ensures
        leaves(v, s.t, allocator::header_to(s, v.bs).0.t, s.hdr),
{
    let s1 = allocator::header_to(s, v.bs).0;
    tables::lemma_header_to(v, s);
    let h = fs::header_local(s.hdr.ag_num);
    assert(!tables::off_root(s.hdr, v.bs, h));
    let h1 = AgHeader { gen: (s.hdr.gen + 1) as u64, ..s.hdr };
    lemma_quiet_insert(v, s.t, s.t, s.hdr, h, fs::header_block(h1, v.bs));
    assert forall|x: u64| idle(v, s.t, s.hdr, x) implies #[trigger] idle(
        v,
        s1.t,
        s.hdr,
        x,
    ) by {
        if fmt::addr_ag(x) == s.hdr.ag_num {
            assert(tables::block_state(v, s1.t, s.hdr, fmt::addr_local(x) as int)
                == tables::block_state(v, s.t, s.hdr, fmt::addr_local(x) as int));
        }
    }
}

} // verus!
