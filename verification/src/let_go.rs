//! Which blocks change where blocks are given up: those in one smallest cell with a
//! block that is, and no others.

use crate::allocator::Pool;
use crate::error::FsError;
use crate::fmt::{CELL_FREE, CELL_FULL};
use crate::header::AgHeader;
use crate::vol::Vol;
use vstd::prelude::*;

use crate::allocator;
use crate::allocator_laws;
use crate::fmt;
use crate::fs;
use crate::tables;

verus! {

/// Blocks `x` and `a` of the group lie in the smallest cell around `x`.
pub open spec fn same_cell(v: Vol, t: Map<u64, Seq<u8>>, hdr: AgHeader, x: int, a: int) -> bool {
    x / tables::unit(v, t, hdr, x) == a / tables::unit(v, t, hdr, x)
}

/// A block of the group that shares its smallest cell with one of `d`.
pub open spec fn near(v: Vol, t: Map<u64, Seq<u8>>, hdr: AgHeader, d: Set<int>, x: int) -> bool {
    exists|a: int| d.contains(a) && #[trigger] same_cell(v, t, hdr, x, a)
}

/// Block `x` is as it was, or it shares its smallest cell with a block of `d`, was in
/// use and is free.
pub open spec fn let_go_at(
    v: Vol,
    t: Map<u64, Seq<u8>>,
    hdr: AgHeader,
    t1: Map<u64, Seq<u8>>,
    d: Set<int>,
    x: int,
) -> bool {
    let y = tables::block_state(v, t, hdr, x);
    let z = tables::block_state(v, t1, hdr, x);
    z == y || (y == Ok::<u8, FsError>(CELL_FULL) && z == Ok::<u8, FsError>(CELL_FREE) && near(
        v,
        t,
        hdr,
        d,
        x,
    ))
}

/// Of the blocks of the group, only some that share a smallest cell with one of `d`
/// have changed, from used to free.
#[verifier::opaque]
pub open spec fn let_go(
    v: Vol,
    t: Map<u64, Seq<u8>>,
    hdr: AgHeader,
    t1: Map<u64, Seq<u8>>,
    d: Set<int>,
) -> bool {
    &&& tables::coarser(v, t, t1, hdr)
    &&& forall|x: int|
        0 <= x < tables::block_count(hdr) ==> #[trigger] let_go_at(v, t, hdr, t1, d, x)
}

/// The blocks from `lo` to `hi`.
pub open spec fn span(lo: int, hi: int) -> Set<int> {
    Set::new(|b: int| lo <= b < hi)
}

pub proof fn lemma_let_go_none(v: Vol, t: Map<u64, Seq<u8>>, hdr: AgHeader, d: Set<int>)
    ensures
        let_go(v, t, hdr, t, d),
{
    reveal(let_go);
    reveal(tables::coarser);
}

/// Tables of the same form, with every block as it was.
pub proof fn lemma_let_go_same(
    v: Vol,
    t: Map<u64, Seq<u8>>,
    hdr: AgHeader,
    t1: Map<u64, Seq<u8>>,
    d: Set<int>,
)
    requires
        tables::forms_kept(v, t, t1, hdr),
        forall|x: int|
            0 <= x < tables::block_count(hdr) ==> #[trigger] tables::block_state(v, t1, hdr, x)
                == tables::block_state(v, t, hdr, x),
    ensures
        let_go(v, t, hdr, t1, d),
{
    reveal(let_go);
    tables::lemma_form_coarser(v, t, t1, hdr);
}

/// Headers that place the tables alike.
pub proof fn lemma_let_go_place(
    v: Vol,
    t: Map<u64, Seq<u8>>,
    a: AgHeader,
    b: AgHeader,
    t1: Map<u64, Seq<u8>>,
    d: Set<int>,
)
    requires
        tables::same_place(a, b),
        let_go(v, t, a, t1, d),
    ensures
        let_go(v, t, b, t1, d),
{
    reveal(let_go);
    tables::lemma_coarser_place(v, t, t1, a, b);
    assert forall|x: int| 0 <= x < tables::block_count(b) implies #[trigger] let_go_at(
        v,
        t,
        b,
        t1,
        d,
        x,
    ) by {
        assert(let_go_at(v, t, a, t1, d, x));
        tables::lemma_state_place(v, t, a, b, x);
        tables::lemma_state_place(v, t1, a, b, x);
        tables::lemma_unit_place(v, t, a, b, x);
        if near(v, t, a, d, x) {
            let c = choose|c: int| d.contains(c) && #[trigger] same_cell(v, t, a, x, c);
            assert(same_cell(v, t, b, x, c));
        }
    }
}

pub proof fn lemma_let_go_more(
    v: Vol,
    t: Map<u64, Seq<u8>>,
    hdr: AgHeader,
    t1: Map<u64, Seq<u8>>,
    d: Set<int>,
    e: Set<int>,
)
    requires
        let_go(v, t, hdr, t1, d),
        forall|b: int| #[trigger] d.contains(b) ==> e.contains(b),
    ensures
        let_go(v, t, hdr, t1, e),
{
    reveal(let_go);
    assert forall|x: int| 0 <= x < tables::block_count(hdr) implies #[trigger] let_go_at(
        v,
        t,
        hdr,
        t1,
        e,
        x,
    ) by {
        assert(let_go_at(v, t, hdr, t1, d, x));
        if near(v, t, hdr, d, x) {
            let a = choose|a: int| d.contains(a) && #[trigger] same_cell(v, t, hdr, x, a);
            assert(e.contains(a));
        }
    }
}

proof fn lemma_twice_at(
    v: Vol,
    t: Map<u64, Seq<u8>>,
    hdr: AgHeader,
    t1: Map<u64, Seq<u8>>,
    hdr1: AgHeader,
    t2: Map<u64, Seq<u8>>,
    d: Set<int>,
    x: int,
)
    requires
        tables::same_place(hdr, hdr1),
        tables::coarser(v, t, t1, hdr),
        0 <= x < tables::block_count(hdr),
        let_go_at(v, t, hdr, t1, d, x),
        let_go_at(v, t1, hdr1, t2, d, x),
    ensures
        let_go_at(v, t, hdr, t2, d, x),
{
    tables::lemma_state_place(v, t1, hdr, hdr1, x);
    tables::lemma_state_place(v, t2, hdr, hdr1, x);
    if tables::block_state(v, t2, hdr, x) != tables::block_state(v, t1, hdr, x) {
        let a = choose|a: int| d.contains(a) && #[trigger] same_cell(v, t1, hdr1, x, a);
        tables::lemma_unit_kept(v, t, t1, hdr, x);
        tables::lemma_unit_place(v, t1, hdr, hdr1, x);
        assert(same_cell(v, t, hdr, x, a));
    }
}

/// What two steps let go.
pub proof fn lemma_let_go_twice(
    v: Vol,
    t: Map<u64, Seq<u8>>,
    hdr: AgHeader,
    t1: Map<u64, Seq<u8>>,
    hdr1: AgHeader,
    t2: Map<u64, Seq<u8>>,
    d: Set<int>,
)
    requires
        tables::same_place(hdr, hdr1),
        let_go(v, t, hdr, t1, d),
        let_go(v, t1, hdr1, t2, d),
    ensures
        let_go(v, t, hdr, t2, d),
{
    reveal(let_go);
    tables::lemma_coarser_place(v, t1, t2, hdr1, hdr);
    tables::lemma_coarser_more(v, t, t1, t2, hdr);
    assert forall|x: int| 0 <= x < tables::block_count(hdr) implies #[trigger] let_go_at(
        v,
        t,
        hdr,
        t2,
        d,
        x,
    ) by {
        assert(let_go_at(v, t, hdr, t1, d, x));
        assert(let_go_at(v, t1, hdr1, t2, d, x));
        lemma_twice_at(v, t, hdr, t1, hdr1, t2, d, x);
    }
}

/// A block between the last of `n` and the end of the cell around it shares that cell.
proof fn lemma_behind(v: Vol, t: Map<u64, Seq<u8>>, hdr: AgHeader, b: int, n: int, x: int)
    requires
        0 <= b,
        0 < n,
        b <= x < allocator_laws::freed_end(v, t, hdr, b, n),
    ensures
        near(v, t, hdr, span(b, b + n), x),
{
    if x < b + n {
        assert(span(b, b + n).contains(x) && same_cell(v, t, hdr, x, x));
    } else {
        let y = b + n - 1;
        let u = tables::unit(v, t, hdr, y);
        assert(u == 1 || u == 16 || u == 256) by {
            reveal(tables::unit);
        }
        assert(x < (y / u + 1) * u) by {
            reveal(tables::unit_end);
        }
        assert(x / u == y / u) by {
            if u == 16 {
                assert(x / 16 == y / 16);
            } else if u == 256 {
                assert(x / 256 == y / 256);
            }
        }
        tables::lemma_unit_even(v, t, hdr, y, x);
        assert(span(b, b + n).contains(y) && same_cell(v, t, hdr, x, y));
    }
}

/// Freeing `n` blocks lets go of them and of what shares a cell with the last.
pub proof fn lemma_run_let_go(v: Vol, p: Pool, blk: u64, hdr: AgHeader, n: int)
    requires
        0 <= n,
        fs::header_of(v, p.t, fmt::addr_ag(blk)) == Ok::<AgHeader, FsError>(hdr),
        hdr.ag_num == fmt::addr_ag(blk),
        tables::sound(v, p.t, hdr),
        fmt::addr_local(blk) + n <= tables::block_count(hdr),
        allocator::freed(v, p, blk, n).1 is Ok,
    ensures
        let_go(
            v,
            p.t,
            hdr,
            allocator::freed(v, p, blk, n).0.t,
            span(fmt::addr_local(blk) as int, fmt::addr_local(blk) + n),
        ),
{
    let t1 = allocator::freed(v, p, blk, n).0.t;
    let b = fmt::addr_local(blk) as int;
    let end = allocator_laws::freed_end(v, p.t, hdr, b, n);
    allocator_laws::law_freeing_frees_its_blocks(v, p, blk, hdr, n);
    assert(tables::coarser(v, p.t, t1, hdr) && allocator_laws::given(v, p.t, t1, hdr, b, end));
    lemma_given_let_go(v, p.t, hdr, t1, b, n);
}

proof fn lemma_given_let_go(
    v: Vol,
    t: Map<u64, Seq<u8>>,
    hdr: AgHeader,
    t1: Map<u64, Seq<u8>>,
    b: int,
    n: int,
)
    requires
        0 <= b,
        0 <= n,
        tables::coarser(v, t, t1, hdr),
        allocator_laws::given(v, t, t1, hdr, b, allocator_laws::freed_end(v, t, hdr, b, n)),
    ensures
        let_go(v, t, hdr, t1, span(b, b + n)),
{
    reveal(let_go);
    let end = allocator_laws::freed_end(v, t, hdr, b, n);
    assert forall|x: int| 0 <= x < tables::block_count(hdr) implies #[trigger] let_go_at(
        v,
        t,
        hdr,
        t1,
        span(b, b + n),
        x,
    ) by {
        assert(allocator_laws::given_at(v, t, t1, hdr, b, end, x));
        if b <= x < end {
            lemma_behind(v, t, hdr, b, n, x);
        }
    }
}

/// A block that shares no cell with what was let go is as it was.
pub proof fn lemma_spared(
    v: Vol,
    t: Map<u64, Seq<u8>>,
    hdr: AgHeader,
    t1: Map<u64, Seq<u8>>,
    d: Set<int>,
    x: int,
)
    requires
        let_go(v, t, hdr, t1, d),
        0 <= x < tables::block_count(hdr),
        !near(v, t, hdr, d, x),
    ensures
        tables::block_state(v, t1, hdr, x) == tables::block_state(v, t, hdr, x),
{
    reveal(let_go);
    assert(let_go_at(v, t, hdr, t1, d, x));
}

} // verus!
