//! What allocation leaves alone: it writes to the tables of its own group only,
//! never to a block in use.

use crate::allocator::{Pool, St};
use crate::error::FsError;
use crate::fmt::{CELL_FREE, CELL_FULL, CELL_REFINED, CELL_RSVD};
use crate::header::AgHeader;
use crate::vol::Vol;
use vstd::prelude::*;

use crate::allocator;
use crate::allocator_laws;
use crate::fmt;
use crate::fs;
use crate::record;
use crate::roottable;
use crate::tables;
use crate::vol;

verus! {

/// Address `x` is in another group, or that of a block in use.
pub open spec fn kept_safe(v: Vol, t: Map<u64, Seq<u8>>, hdr: AgHeader, x: u64) -> bool {
    ||| fmt::addr_ag(x) != hdr.ag_num
    ||| (fmt::addr_local(x) < tables::block_count(hdr) && tables::block_state(
        v,
        t,
        hdr,
        fmt::addr_local(x) as int,
    ) == Ok::<u8, FsError>(CELL_FULL))
}

/// From `t` to `t1` nothing was written to other groups or to blocks in use.
pub open spec fn spares(v: Vol, t: Map<u64, Seq<u8>>, t1: Map<u64, Seq<u8>>, hdr: AgHeader) -> bool {
    forall|x: u64|
        kept_safe(v, t, hdr, x) ==> #[trigger] vol::rd(v, t1, x) == vol::rd(v, t, x)
}

/// Cells that are reserved or free in `t1` were no used ones in `t`.
pub open spec fn unused(v: Vol, t: Map<u64, Seq<u8>>, t1: Map<u64, Seq<u8>>, hdr: AgHeader) -> bool {
    forall|c: int|
        0 <= c < allocator::cells_in(hdr) && (#[trigger] roottable::cell_of(v, t1, hdr, c) == Ok::<
            u8,
            FsError,
        >(CELL_RSVD) || roottable::cell_of(v, t1, hdr, c) == Ok::<u8, FsError>(CELL_FREE)) ==> (
        roottable::cell_of(v, t, hdr, c) == Ok::<u8, FsError>(CELL_RSVD) || roottable::cell_of(
            v,
            t,
            hdr,
            c,
        ) == Ok::<u8, FsError>(CELL_FREE))
}

/// A block that is written, off the blocks in use.
proof fn lemma_spares_insert(
    v: Vol,
    t0: Map<u64, Seq<u8>>,
    t: Map<u64, Seq<u8>>,
    hdr: AgHeader,
    l: u32,
    b: Seq<u8>,
)
    requires
        spares(v, t0, t, hdr),
        l as int / 256 < allocator::cells_in(hdr) ==> (roottable::cell_of(
            v,
            t0,
            hdr,
            l as int / 256,
        ) == Ok::<u8, FsError>(CELL_RSVD) || roottable::cell_of(v, t0, hdr, l as int / 256)
            == Ok::<u8, FsError>(CELL_FREE)),
    ensures
        spares(v, t0, t.insert(fmt::addr_of(hdr.ag_num, l), b), hdr),
{
    let t1 = t.insert(fmt::addr_of(hdr.ag_num, l), b);
    fmt::law_address_halves(hdr.ag_num, l, 0);
    assert forall|x: u64| kept_safe(v, t0, hdr, x) implies #[trigger] vol::rd(v, t1, x) == vol::rd(
        v,
        t0,
        x,
    ) by {
        assert(vol::rd(v, t, x) == vol::rd(v, t0, x));
    }
}

/// A block of the root table that is written.
proof fn lemma_spares_root(
    v: Vol,
    t0: Map<u64, Seq<u8>>,
    t: Map<u64, Seq<u8>>,
    hdr: AgHeader,
    off: int,
    x: u8,
)
    requires
        tables::base_sound(v, t0, hdr),
        spares(v, t0, t, hdr),
        0 <= off < tables::root_bytes(hdr),
    ensures
        spares(v, t0, roottable::rt_put(v, t, hdr, off, x).0, hdr),
{
    if let Ok((blk, o, b)) = roottable::rt_at(v, t, hdr, off) {
        tables::lemma_root_block(hdr, v.bs, off);
        let l = (hdr.alloc_root + off / v.bs as int) as u32;
        assert(!tables::off_root(hdr, v.bs, l));
        lemma_spares_insert(v, t0, t, hdr, l, b.update(o, x));
    }
}

proof fn lemma_spares_puts(
    v: Vol,
    t0: Map<u64, Seq<u8>>,
    t: Map<u64, Seq<u8>>,
    hdr: AgHeader,
    off: int,
    xs: Seq<u8>,
)
    requires
        tables::base_sound(v, t0, hdr),
        spares(v, t0, t, hdr),
        0 <= off,
        off + xs.len() <= tables::root_bytes(hdr),
    ensures
        spares(v, t0, roottable::rt_puts(v, t, hdr, off, xs).0, hdr),
    decreases xs.len(),
{
    if xs.len() > 0 {
        lemma_spares_root(v, t0, t, hdr, off, xs[0]);
        let (t1, r) = roottable::rt_put(v, t, hdr, off, xs[0]);
        if r is Ok {
            lemma_spares_puts(v, t0, t1, hdr, off + 1, xs.skip(1));
        }
    }
}

proof fn lemma_spares_cell(
    v: Vol,
    t0: Map<u64, Seq<u8>>,
    t: Map<u64, Seq<u8>>,
    hdr: AgHeader,
    c: int,
    st: u8,
)
    requires
        tables::base_sound(v, t0, hdr),
        spares(v, t0, t, hdr),
        0 <= c < allocator::cells_in(hdr),
    ensures
        spares(v, t0, roottable::cell_to(v, t, hdr, c, st).0, hdr),
{
    tables::lemma_cell_offs(hdr, c);
    let x = fmt::with_quarter(roottable::rt_get(v, t, hdr, c / 4)->Ok_0, c % 4, st);
    assert(roottable::cell_to(v, t, hdr, c, st).0 == roottable::rt_put(v, t, hdr, c / 4, x).0);
    lemma_spares_root(v, t0, t, hdr, c / 4, x);
}

/// A record that is written, at a good reference.
proof fn lemma_spares_record(
    v: Vol,
    t0: Map<u64, Seq<u8>>,
    t: Map<u64, Seq<u8>>,
    hdr: AgHeader,
    r: (u32, u16),
    rec: Seq<u8>,
)
    requires
        spares(v, t0, t, hdr),
        unused(v, t0, t, hdr),
        tables::good_ref(v, t, hdr, r),
    ensures
        spares(v, t0, roottable::record_to(v, t, hdr.ag_num, r, rec).0, hdr),
{
    if let Ok(b) = roottable::table_of(v, t, hdr.ag_num, r.0) {
        let off = roottable::rec_off_of(r.1);
        assert(roottable::cell_of(v, t, hdr, r.0 as int / 256) == Ok::<u8, FsError>(CELL_RSVD));
        lemma_spares_insert(
            v,
            t0,
            t,
            hdr,
            r.0,
            roottable::table_image(fmt::splice(b, off, rec)),
        );
    }
}

/// Claiming a record writes to the tables only.
#[verifier::rlimit(40)]
proof fn lemma_spares_claim(v: Vol, t0: Map<u64, Seq<u8>>, s: St, skip: int)
    requires
        tables::base_sound(v, t0, AgHeader { tbl_arena: 0, ..s.hdr }),
        tables::sound_but(v, s.t, s.hdr, skip),
        spares(v, t0, s.t, s.hdr),
        unused(v, t0, s.t, s.hdr),
        0 <= skip < allocator::cells_in(s.hdr) ==> roottable::cell_of(v, s.t, s.hdr, skip) != Ok::<
            u8,
            FsError,
        >(CELL_FREE),
        allocator::claim_rec(v, s).1 is Ok,
    ensures
        spares(v, t0, allocator::claim_rec(v, s).0.t, s.hdr),
        unused(v, t0, allocator::claim_rec(v, s).0.t, s.hdr),
{
    let (t, hdr, ag) = (s.t, s.hdr, s.hdr.ag_num);
    let (s1, r1) = allocator::claim_rec(v, s);
    let cells = allocator::cells_in(hdr);
    let a = hdr.tbl_arena as int;
    tables::lemma_claim(v, s, skip);
    tables::lemma_same_place(v, s1.t, hdr, s1.hdr);
    assert(unused(v, t0, s1.t, hdr)) by {
        assert forall|c: int|
            0 <= c < cells && (#[trigger] roottable::cell_of(v, s1.t, hdr, c) == Ok::<u8, FsError>(
                CELL_RSVD,
            ) || roottable::cell_of(v, s1.t, hdr, c) == Ok::<u8, FsError>(CELL_FREE)) implies (
        roottable::cell_of(v, t0, hdr, c) == Ok::<u8, FsError>(CELL_RSVD) || roottable::cell_of(
            v,
            t0,
            hdr,
            c,
        ) == Ok::<u8, FsError>(CELL_FREE)) by {
            let now = roottable::cell_of(v, t, hdr, c);
            if c == skip {
                assert(roottable::cell_of(v, s1.t, hdr, c) == now);
            }
        }
    }
    let in_arena = a != 0 && a + 256 <= u32::MAX && (allocator::spare_rec(
        v,
        t,
        ag,
        a,
        a + 256,
    ) matches Ok(Some(_)));
    if in_arena {
        tables::lemma_spare_rec(v, t, ag, a, a + 256);
        let (l, buf, idx) = allocator::spare_rec(v, t, ag, a, a + 256)->Ok_0->Some_0;
        assert(l as int / 256 == a / 256);
        assert(roottable::cell_of(v, t, hdr, l as int / 256) == Ok::<u8, FsError>(CELL_RSVD));
        lemma_spares_insert(
            v,
            t0,
            t,
            hdr,
            l,
            roottable::table_image(allocator::claimed(buf, idx)),
        );
    } else {
        tables::lemma_first_cell(v, t, hdr, CELL_FREE, 0, cells);
        let c = roottable::first_cell(v, t, hdr, CELL_FREE, 0, cells)->Some_0;
        let t1 = roottable::cell_to(v, t, hdr, c, CELL_RSVD).0;
        let h0 = AgHeader { tbl_arena: 0, ..hdr };
        lemma_spares_place(v, t0, t, hdr, h0);
        lemma_spares_cell(v, t0, t, h0, c, CELL_RSVD);
        lemma_spares_place(v, t0, t1, hdr, h0);
        assert(roottable::cell_to(v, t, h0, c, CELL_RSVD) == roottable::cell_to(
            v,
            t,
            hdr,
            c,
            CELL_RSVD,
        ));
        tables::lemma_free_apart(v, t, hdr, c);
        let l = (c * 256) as u32;
        assert(l as int / 256 == c);
        assert(roottable::cell_of(v, t, hdr, c) == Ok::<u8, FsError>(CELL_FREE));
        lemma_spares_insert(
            v,
            t0,
            t1,
            hdr,
            l,
            roottable::table_image(
                fmt::splice(allocator::fresh_table(v.bs), 16, fmt::be32(1)),
            ),
        );
    }
}

/// Headers that place the tables alike spare the same blocks.
proof fn lemma_spares_place(
    v: Vol,
    t0: Map<u64, Seq<u8>>,
    t: Map<u64, Seq<u8>>,
    a: AgHeader,
    b: AgHeader,
)
    requires
        tables::same_place(a, b),
    ensures
        spares(v, t0, t, a) == spares(v, t0, t, b),
        unused(v, t0, t, a) == unused(v, t0, t, b),
{
    assert forall|x: u64| #[trigger] kept_safe(v, t0, a, x) == kept_safe(v, t0, b, x) by {
        tables::lemma_state_place(v, t0, a, b, fmt::addr_local(x) as int);
    }
    tables::lemma_same_place(v, t0, a, b);
    tables::lemma_same_place(v, t, a, b);
    if unused(v, t0, t, a) {
        lemma_unused_place(v, t0, t, a, b);
    }
    if unused(v, t0, t, b) {
        lemma_unused_place(v, t0, t, b, a);
    }
}

proof fn lemma_unused_place(
    v: Vol,
    t0: Map<u64, Seq<u8>>,
    t: Map<u64, Seq<u8>>,
    a: AgHeader,
    b: AgHeader,
)
    requires
        tables::same_place(a, b),
        unused(v, t0, t, a),
    ensures
        unused(v, t0, t, b),
{
    tables::lemma_same_place(v, t0, a, b);
    tables::lemma_same_place(v, t, a, b);
    assert forall|c: int|
        0 <= c < allocator::cells_in(b) && (#[trigger] roottable::cell_of(v, t, b, c) == Ok::<
            u8,
            FsError,
        >(CELL_RSVD) || roottable::cell_of(v, t, b, c) == Ok::<u8, FsError>(CELL_FREE)) implies (
    roottable::cell_of(v, t0, b, c) == Ok::<u8, FsError>(CELL_RSVD) || roottable::cell_of(
        v,
        t0,
        b,
        c,
    ) == Ok::<u8, FsError>(CELL_FREE)) by {
        assert(roottable::cell_of(v, t, b, c) == roottable::cell_of(v, t, a, c));
    }
}

/// Sound tables have a sound base, also under a header that places them alike
/// and names the same arena.
pub proof fn lemma_base_place(v: Vol, t: Map<u64, Seq<u8>>, a: AgHeader, b: AgHeader)
    requires
        tables::same_place(a, b),
        tables::base_sound(v, t, a),
        b.tbl_arena == 0 || b.tbl_arena == a.tbl_arena,
    ensures
        tables::base_sound(v, t, b),
{
    tables::lemma_same_place(v, t, a, b);
    assert forall|l: u32| l as int / 256 == b.tbl_arena as int / 256 && b.tbl_arena
        != 0 implies #[trigger] tables::off_root(b, v.bs, l) by {
        assert(tables::off_root(a, v.bs, l));
    }
    assert forall|l: u32|
        !(#[trigger] tables::off_root(b, v.bs, l)) && l as int / 256 < allocator::cells_in(
            b,
        ) implies roottable::cell_of(v, t, b, l as int / 256) == Ok::<u8, FsError>(CELL_RSVD) by {
        assert(!tables::off_root(a, v.bs, l));
    }
}

/// Refining a cell writes to the tables only.
#[verifier::rlimit(40)]
proof fn lemma_spares_refine0(v: Vol, t0: Map<u64, Seq<u8>>, s: St, c: int)
    requires
        tables::base_sound(v, t0, s.hdr),
        tables::sound(v, s.t, s.hdr),
        spares(v, t0, s.t, s.hdr),
        unused(v, t0, s.t, s.hdr),
        0 <= c < allocator::cells_in(s.hdr),
        roottable::cell_of(v, s.t, s.hdr, c) == Ok::<u8, FsError>(CELL_FREE),
        allocator::refine0(v, s, c).1 is Ok,
    ensures
        spares(v, t0, allocator::refine0(v, s, c).0.t, s.hdr),
        unused(v, t0, allocator::refine0(v, s, c).0.t, s.hdr),
{
    let hdr = s.hdr;
    let ta = roottable::cell_to(v, s.t, hdr, c, CELL_REFINED).0;
    let sa = St { t: ta, ..s };
    let (sb, rb) = allocator::claim_rec(v, sa);
    let r = rb->Ok_0;
    tables::lemma_flip(v, s.t, hdr, c);
    tables::lemma_cell_to(v, s.t, hdr, c, CELL_REFINED);
    lemma_spares_cell(v, t0, s.t, hdr, c, CELL_REFINED);
    assert(unused(v, t0, ta, hdr));
    lemma_base_zero(v, t0, hdr, hdr);
    lemma_spares_claim(v, t0, sa, c);
    tables::lemma_claim(v, sa, c);
    lemma_spares_ref(v, t0, hdr, sb, c, r);
}

/// Setting a cell's reference writes to the root table only.
proof fn lemma_spares_ref(
    v: Vol,
    t0: Map<u64, Seq<u8>>,
    hdr: AgHeader,
    s: St,
    c: int,
    r: (u32, u16),
)
    requires
        tables::base_sound(v, t0, hdr),
        tables::same_place(hdr, s.hdr),
        v.bs > 0,
        vol::txn_ok(s.t, v.bs),
        spares(v, t0, s.t, hdr),
        unused(v, t0, s.t, hdr),
        0 <= c < allocator::cells_in(hdr),
        roottable::cell_ref_to(v, s.t, s.hdr, c, r).1 is Ok,
    ensures
        spares(v, t0, roottable::cell_ref_to(v, s.t, s.hdr, c, r).0, hdr),
        unused(v, t0, roottable::cell_ref_to(v, s.t, s.hdr, c, r).0, hdr),
{
    let off = roottable::cell_ref_off(hdr, c);
    let xs = roottable::ref_bytes(r);
    let t1 = roottable::cell_ref_to(v, s.t, s.hdr, c, r).0;
    tables::lemma_cell_offs(hdr, c);
    lemma_spares_puts(v, t0, s.t, hdr, off, xs);
    lemma_puts_place(v, s.t, hdr, s.hdr, off, xs);
    tables::law_cell_reference_reads_back(v, s.t, s.hdr, c, r);
    tables::lemma_same_place(v, s.t, hdr, s.hdr);
    tables::lemma_same_place(v, t1, hdr, s.hdr);
    assert forall|d: int| 0 <= d < allocator::cells_in(hdr) implies #[trigger] roottable::cell_of(
        v,
        t1,
        hdr,
        d,
    ) == roottable::cell_of(v, s.t, hdr, d) by {
        assert(roottable::cell_of(v, t1, s.hdr, d) == roottable::cell_of(v, s.t, s.hdr, d));
    }
}

/// The base, whatever arena a later header names.
proof fn lemma_base_zero(v: Vol, t: Map<u64, Seq<u8>>, a: AgHeader, b: AgHeader)
    requires
        tables::same_place(a, b),
        tables::base_sound(v, t, a),
    ensures
        tables::base_sound(v, t, AgHeader { tbl_arena: 0, ..b }),
{
    lemma_base_place(v, t, a, AgHeader { tbl_arena: 0, ..b });
}

/// Bytes go to the same places.
proof fn lemma_puts_place(
    v: Vol,
    t: Map<u64, Seq<u8>>,
    a: AgHeader,
    b: AgHeader,
    off: int,
    xs: Seq<u8>,
)
    requires
        tables::same_place(a, b),
    ensures
        roottable::rt_puts(v, t, a, off, xs) == roottable::rt_puts(v, t, b, off, xs),
    decreases xs.len(),
{
    if xs.len() > 0 {
        let (t1, r) = roottable::rt_put(v, t, a, off, xs[0]);
        assert(roottable::rt_put(v, t, b, off, xs[0]) == (t1, r));
        if r is Ok {
            lemma_puts_place(v, t1, a, b, off + 1, xs.skip(1));
        }
    }
}

/// Refining a part of a cell writes to the tables only.
#[verifier::rlimit(40)]
proof fn lemma_spares_refine1(v: Vol, t0: Map<u64, Seq<u8>>, s: St, c: int, i: int)
    requires
        tables::base_sound(v, t0, AgHeader { tbl_arena: 0, ..s.hdr }),
        tables::sound(v, s.t, s.hdr),
        spares(v, t0, s.t, s.hdr),
        unused(v, t0, s.t, s.hdr),
        tables::holds(v, s.t, s.hdr, c, 16),
        0 <= i < 16,
        fmt::cell_at(tables::cell_rec(v, s.t, s.hdr, c), i) == CELL_FREE,
        allocator::refine1(v, s, tables::held(v, s.t, s.hdr, c, 16), i).1 is Ok,
    ensures
        ({
            let s1 = allocator::refine1(v, s, tables::held(v, s.t, s.hdr, c, 16), i).0;
            &&& spares(v, t0, s1.t, s.hdr)
            &&& unused(v, t0, s1.t, s.hdr)
        }),
{
    let hdr = s.hdr;
    let l0 = tables::held(v, s.t, hdr, c, 16);
    let (sa, ra) = allocator::claim_rec(v, s);
    let r = ra->Ok_0;
    lemma_spares_claim0(v, t0, s);
    tables::lemma_claim(v, s, -1);
    tables::lemma_kept_holds(v, s.t, sa.t, hdr, -1);
    tables::lemma_same_place(v, sa.t, hdr, sa.hdr);
    assert(tables::holds(v, sa.t, hdr, c, 16) && tables::held(v, sa.t, hdr, c, 16) == l0);
    assert(tables::holds(v, sa.t, sa.hdr, c, 16));
    assert(tables::good_ref(v, sa.t, sa.hdr, tables::held(v, sa.t, sa.hdr, c, 16)));
    let rec = roottable::record_of(v, sa.t, sa.hdr.ag_num, l0)->Ok_0;
    let rec2 = record::with_ref(fmt::cell_put(rec, i, CELL_REFINED), i, r);
    lemma_spares_record(v, t0, sa.t, hdr, l0, rec2);
    tables::lemma_record_len(v, sa.t, hdr, l0);
    tables::lemma_rec_fields(rec, i, CELL_REFINED, r);
    tables::lemma_rec_fields(fmt::cell_put(rec, i, CELL_REFINED), i, CELL_REFINED, r);
    tables::lemma_record_change(v, sa.t, sa.hdr, l0, rec2);
    let t2 = allocator::refine1(v, s, l0, i).0.t;
    tables::lemma_same_place(v, t2, hdr, sa.hdr);
    assert forall|d: int| 0 <= d < allocator::cells_in(hdr) implies #[trigger] roottable::cell_of(
        v,
        t2,
        hdr,
        d,
    ) == roottable::cell_of(v, sa.t, hdr, d) by {
        assert(roottable::cell_of(v, t2, sa.hdr, d) == roottable::cell_of(v, sa.t, sa.hdr, d));
    }
}

/// Claiming, with a base that names no arena.
proof fn lemma_spares_claim0(v: Vol, t0: Map<u64, Seq<u8>>, s: St)
    requires
        tables::base_sound(v, t0, AgHeader { tbl_arena: 0, ..s.hdr }),
        tables::sound(v, s.t, s.hdr),
        spares(v, t0, s.t, s.hdr),
        unused(v, t0, s.t, s.hdr),
        allocator::claim_rec(v, s).1 is Ok,
    ensures
        spares(v, t0, allocator::claim_rec(v, s).0.t, s.hdr),
        unused(v, t0, allocator::claim_rec(v, s).0.t, s.hdr),
{
    lemma_spares_claim(v, t0, s, -1);
}

/// Marking writes to the tables only.
proof fn lemma_spares_mark(
    v: Vol,
    t0: Map<u64, Seq<u8>>,
    s: St,
    r: (u32, u16),
    rec: Seq<u8>,
    lo: int,
    hi: int,
    n: int,
    blk: int,
)
    requires
        spares(v, t0, s.t, s.hdr),
        unused(v, t0, s.t, s.hdr),
        tables::good_ref(v, s.t, s.hdr, r),
    ensures
        spares(v, t0, allocator::mark(v, s, r, rec, lo, hi, n, blk).0.t, s.hdr),
{
    lemma_spares_record(v, t0, s.t, s.hdr, r, record::with_states(rec, lo, hi, CELL_FULL));
}

proof fn lemma_spares_cells(
    v: Vol,
    t0: Map<u64, Seq<u8>>,
    t: Map<u64, Seq<u8>>,
    hdr: AgHeader,
    lo: int,
    hi: int,
    st: u8,
)
    requires
        tables::base_sound(v, t0, hdr),
        spares(v, t0, t, hdr),
        0 <= lo,
        hi <= allocator::cells_in(hdr),
    ensures
        spares(v, t0, roottable::cells_to(v, t, hdr, lo, hi, st).0, hdr),
    decreases hi - lo,
{
    if lo < hi {
        lemma_spares_cell(v, t0, t, hdr, lo, st);
        let (t1, r) = roottable::cell_to(v, t, hdr, lo, st);
        if r is Ok {
            lemma_spares_cells(v, t0, t1, hdr, lo + 1, hi, st);
        }
    }
}

proof fn lemma_spares_alloc0(v: Vol, s: St, k: int)
    requires
        tables::sound(v, s.t, s.hdr),
        1 <= k,
        allocator::alloc0(v, s, k).1 is Ok,
    ensures
        spares(v, s.t, allocator::alloc0(v, s, k).0.t, s.hdr),
{
    let cells = allocator::cells_in(s.hdr);
    allocator_laws::lemma_free_cells(v, s.t, s.hdr, k, 0, 0, cells);
    let c = roottable::free_cells(v, s.t, s.hdr, k, 0, 0, cells)->Ok_0->Some_0;
    lemma_spares_cells(v, s.t, s.t, s.hdr, c, c + k, CELL_FULL);
}

#[verifier::rlimit(40)]
proof fn lemma_spares_alloc1(v: Vol, s: St, m: int)
    requires
        tables::sound(v, s.t, s.hdr),
        1 <= m <= 16,
        allocator::alloc1(v, s, m).1 is Ok,
    ensures
        spares(v, s.t, allocator::alloc1(v, s, m).0.t, s.hdr),
{
    let cells = allocator::cells_in(s.hdr);
    match allocator::room1(v, s.t, s.hdr, m, 0) {
        Err(_) => {},
        Ok(Some((c, r, rec, start))) => {
            allocator_laws::lemma_room1(v, s.t, s.hdr, m, 0);
            assert(tables::holds(v, s.t, s.hdr, c, 16));
            assert(tables::held(v, s.t, s.hdr, c, 16) == r);
            lemma_spares_mark(
                v,
                s.t,
                s,
                r,
                rec,
                start,
                start + m,
                m * 16,
                c * 256 + start * 16,
            );
        },
        Ok(None) => {
            tables::lemma_first_cell(v, s.t, s.hdr, CELL_FREE, 0, cells);
            let c = roottable::first_cell(v, s.t, s.hdr, CELL_FREE, 0, cells)->Some_0;
            lemma_spares_refine0(v, s.t, s, c);
            tables::lemma_refine0(v, s, c);
            let (s1, r1) = allocator::refine0(v, s, c);
            let r = r1->Ok_0;
            let rec = roottable::record_of(v, s1.t, s1.hdr.ag_num, r)->Ok_0;
            assert(tables::good_ref(v, s1.t, s1.hdr, tables::held(v, s1.t, s1.hdr, c, 16)));
            lemma_spares_place(v, s.t, s1.t, s.hdr, s1.hdr);
            lemma_spares_mark(v, s.t, s1, r, rec, 0, m, m * 16, c * 256);
            lemma_spares_place(
                v,
                s.t,
                allocator::mark(v, s1, r, rec, 0, m, m * 16, c * 256).0.t,
                s.hdr,
                s1.hdr,
            );
        },
    }
}

/// Refining a part of a cell and taking its first blocks writes to the tables
/// only.
#[verifier::rlimit(40)]
proof fn lemma_spares_part(v: Vol, t0: Map<u64, Seq<u8>>, s: St, c: int, i: int, n: int)
    requires
        tables::base_sound(v, t0, AgHeader { tbl_arena: 0, ..s.hdr }),
        tables::sound(v, s.t, s.hdr),
        spares(v, t0, s.t, s.hdr),
        unused(v, t0, s.t, s.hdr),
        tables::holds(v, s.t, s.hdr, c, 16),
        0 <= i < 16,
        fmt::cell_at(tables::cell_rec(v, s.t, s.hdr, c), i) == CELL_FREE,
        allocator::refine_and_mark(
            v,
            s,
            tables::held(v, s.t, s.hdr, c, 16),
            i,
            n,
            c * 256 + i * 16,
        ).1 is Ok,
    ensures
        spares(
            v,
            t0,
            allocator::refine_and_mark(
                v,
                s,
                tables::held(v, s.t, s.hdr, c, 16),
                i,
                n,
                c * 256 + i * 16,
            ).0.t,
            s.hdr,
        ),
{
    let l0 = tables::held(v, s.t, s.hdr, c, 16);
    let blk = c * 256 + i * 16;
    lemma_spares_refine1(v, t0, s, c, i);
    tables::lemma_refine1(v, s, c, i);
    let (s1, r1) = allocator::refine1(v, s, l0, i);
    let l1 = r1->Ok_0;
    let rec = roottable::record_of(v, s1.t, s1.hdr.ag_num, l1)->Ok_0;
    assert(tables::good_ref(v, s1.t, s1.hdr, tables::held(v, s1.t, s1.hdr, c, i)));
    lemma_spares_place(v, t0, s1.t, s.hdr, s1.hdr);
    lemma_spares_mark(v, t0, s1, l1, rec, 0, n, n, blk);
    lemma_spares_place(
        v,
        t0,
        allocator::mark(v, s1, l1, rec, 0, n, n, blk).0.t,
        s.hdr,
        s1.hdr,
    );
}

proof fn lemma_spares_alloc2(v: Vol, s: St, n: int)
    requires
        tables::sound(v, s.t, s.hdr),
        1 <= n <= 16,
        allocator::alloc2(v, s, n).1 is Ok,
    ensures
        spares(v, s.t, allocator::alloc2(v, s, n).0.t, s.hdr),
{
    let cells = allocator::cells_in(s.hdr);
    lemma_base_zero(v, s.t, s.hdr, s.hdr);
    match allocator::room2(v, s.t, s.hdr, n, 0) {
        Err(_) => {},
        Ok(Some((blk, l1, rec, start))) => {
            let (d, i) = allocator_laws::lemma_room2_at(v, s.t, s.hdr, n, 0);
            assert(tables::holds(v, s.t, s.hdr, d, i));
            lemma_spares_mark(v, s.t, s, l1, rec, start, start + n, n, blk);
        },
        Ok(None) => {
            allocator_laws::lemma_spare1_at(v, s.t, s.hdr, 0);
            match allocator::spare1(v, s.t, s.hdr, 0) {
                Err(_) => {},
                Ok(Some((c, l0, i))) => {
                    lemma_spares_part(v, s.t, s, c, i, n);
                },
                Ok(None) => {
                    lemma_spares_fresh(v, s, n);
                },
            }
        },
    }
}

/// Taking blocks of a free cell writes to the tables only.
#[verifier::rlimit(40)]
proof fn lemma_spares_fresh(v: Vol, s: St, n: int)
    requires
        tables::sound(v, s.t, s.hdr),
        1 <= n <= 16,
        allocator::alloc2(v, s, n).1 is Ok,
        allocator::room2(v, s.t, s.hdr, n, 0) matches Ok(None),
        allocator::spare1(v, s.t, s.hdr, 0) matches Ok(None),
    ensures
        spares(v, s.t, allocator::alloc2(v, s, n).0.t, s.hdr),
{
    let cells = allocator::cells_in(s.hdr);
    tables::lemma_first_cell(v, s.t, s.hdr, CELL_FREE, 0, cells);
    let c = roottable::first_cell(v, s.t, s.hdr, CELL_FREE, 0, cells)->Some_0;
    lemma_spares_refine0(v, s.t, s, c);
    tables::lemma_refine0(v, s, c);
    let (s1, r1) = allocator::refine0(v, s, c);
    assert(fmt::cell_at(fmt::zeros(128), 0) == CELL_FREE);
    lemma_spares_place(v, s.t, s1.t, s.hdr, s1.hdr);
    lemma_base_zero(v, s.t, s.hdr, s1.hdr);
    lemma_spares_part(v, s.t, s1, c, 0, n);
    let t2 = allocator::refine_and_mark(v, s1, r1->Ok_0, 0, n, c * 256).0.t;
    lemma_spares_place(v, s.t, t2, s.hdr, s1.hdr);
}

/// An allocation writes to no block in use and to no other group.
pub proof fn law_allocation_spares_used_blocks(v: Vol, p: Pool, ag: u32, hdr: AgHeader, n: int)
    requires
        1 <= n,
        fs::header_of(v, p.t, ag) == Ok::<AgHeader, FsError>(hdr),
        hdr.ag_num == ag,
        tables::sound(v, p.t, hdr),
        allocator::allocated(v, p, ag, n).1 is Ok,
    ensures
        spares(v, p.t, allocator::allocated(v, p, ag, n).0.t, hdr),
{
    reveal(allocator::allocated);
    let s = allocator::with_hdr(p, hdr);
    let (s1, r1) = allocator::alloc_some(v, s, n);
    if n >= 256 {
        fmt::lemma_ceil_div(n, 256);
        lemma_spares_alloc0(v, s, fmt::ceil_div(n, 256));
    } else if n > 16 {
        fmt::lemma_ceil_div(n, 16);
        lemma_spares_alloc1(v, s, fmt::ceil_div(n, 16));
    } else {
        lemma_spares_alloc2(v, s, n);
    }
    let h = fs::header_local(ag);
    assert(!tables::off_root(hdr, v.bs, h));
    allocator_laws::lemma_alloc_place(v, s, n);
    let h1 = AgHeader { gen: (s1.hdr.gen + 1) as u64, ..s1.hdr };
    lemma_spares_insert(v, p.t, s1.t, hdr, h, fs::header_block(h1, v.bs));
}

} // verus!
