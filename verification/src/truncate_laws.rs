//! What cutting a file promises, for files mapped by inline extents: blocks
//! before the cut stay mapped as they were, those behind it are free, and
//! nothing else of the mapping changes.

use crate::allocator::Pool;
use crate::error::FsError;
use crate::fmt::{CELL_FREE, FMT_EXTENT};
use crate::header::AgHeader;
use crate::inode::Extent;
use crate::mapping::Mp;
use crate::vol::Vol;
use vstd::prelude::*;

use crate::allocator;
use crate::allocator_laws;
use crate::fmt;
use crate::fs;
use crate::inode;
use crate::let_go;
use crate::mapping;
use crate::mapping_laws;
use crate::tables;
use crate::truncate;

verus! {

// --- the mapping --------------------------------------------------------------

/// One of the extents from `k` on maps file block `f` to address `a`.
pub open spec fn maps_from(es: Seq<Extent>, k: int, f: int, a: int) -> bool {
    exists|i: int| k <= i < es.len() && #[trigger] mapping_laws::leads(es[i], f, a)
}

/// A run that is trimmed keeps what it has to, and less than a cell more.
pub proof fn lemma_run_cut(v: Vol, p: Pool, addr: u64, blocks: int, keep: int)
    requires
        0 < keep,
        truncate::run_cut(v, p, addr, blocks, keep).1 is Ok,
    ensures
        truncate::run_cut(v, p, addr, blocks, keep).1 matches Ok(n) && if keep < blocks {
            keep <= n <= blocks && n < keep + 256
        } else {
            n == blocks
        },
{
    if keep < blocks {
        reveal(truncate::granule);
        let g = truncate::granule(v, p.t, addr)->Ok_0;
        let q = fmt::ceil_div(keep, g);
        fmt::lemma_ceil_div(keep, g);
        assert(g == 1 || g == 16 || g == 256);
        assert(keep <= q * g < keep + g) by (nonlinear_arith)
            requires
                keep <= q * g,
                (q - 1) * g < keep,
        ;
    }
}

/// Cutting the extents from `k` on.
#[verifier::rlimit(40)]
proof fn lemma_extents_cut(
    v: Vol,
    p: Pool,
    es: Seq<Extent>,
    cutoff: int,
    k: int,
    keep: Seq<Extent>,
    acc: int,
)
    requires
        mapping_laws::apart(es),
        0 <= k,
        0 <= cutoff,
        truncate::extents_cut(v, p, es, cutoff, k, keep, acc).1 is Ok,
        forall|i: int| 0 <= i < keep.len() ==> (#[trigger] keep[i]).blocks > 0,
    ensures
        ({
            let res = truncate::extents_cut(v, p, es, cutoff, k, keep, acc).1->Ok_0.0;
            &&& k <= es.len() ==> res.len() <= keep.len() + (es.len() - k)
            &&& k > es.len() ==> res.len() == keep.len()
            &&& forall|i: int| 0 <= i < res.len() ==> (#[trigger] res[i]).blocks > 0
            &&& forall|f: int, a: int|
                mapping_laws::maps(keep, f, a) ==> #[trigger] mapping_laws::maps(res, f, a)
            &&& forall|f: int, a: int|
                f < cutoff && maps_from(es, k, f, a) ==> #[trigger] mapping_laws::maps(res, f, a)
            &&& forall|f: int, a: int| #[trigger]
                mapping_laws::maps(res, f, a) ==> mapping_laws::maps(keep, f, a) || (maps_from(
                    es,
                    k,
                    f,
                    a,
                ) && f < cutoff + 256)
        }),
    decreases es.len() - k,
{
    if k < es.len() {
        let e = es[k];
        assert(mapping_laws::extent_ok(e));
        let res = truncate::extents_cut(v, p, es, cutoff, k, keep, acc).1->Ok_0.0;
        assert forall|f: int, a: int| maps_from(es, k, f, a) == (mapping_laws::leads(e, f, a)
            || #[trigger] maps_from(es, k + 1, f, a)) by {
            if maps_from(es, k, f, a) {
                let i = choose|i: int|
                    k <= i < es.len() && #[trigger] mapping_laws::leads(es[i], f, a);
                assert(i == k || maps_from(es, k + 1, f, a));
            }
        }
        if e.file_block >= cutoff {
            let p1 = allocator::freed(v, p, e.blk, e.blocks as int).0;
            lemma_extents_cut(v, p1, es, cutoff, k + 1, keep, acc + e.blocks);
            assert forall|f: int, a: int|
                f < cutoff && maps_from(es, k, f, a) implies #[trigger] mapping_laws::maps(
                res,
                f,
                a,
            ) by {
                assert(maps_from(es, k + 1, f, a));
            }
        } else {
            let (p1, kept) = if e.file_block + e.blocks > cutoff {
                let (q, r) = truncate::run_cut(v, p, e.blk, e.blocks as int, cutoff - e.file_block);
                (q, r->Ok_0)
            } else {
                (p, e.blocks as int)
            };
            if e.file_block + e.blocks > cutoff {
                lemma_run_cut(v, p, e.blk, e.blocks as int, cutoff - e.file_block);
            }
            let x = Extent { blocks: kept as u32, ..e };
            let more = keep.push(x);
            lemma_push_maps(keep, x);
            lemma_extents_cut(v, p1, es, cutoff, k + 1, more, acc + (e.blocks - kept));
            assert(e.file_block + e.blocks <= cutoff ==> x == e);
            assert forall|f: int, a: int|
                f < cutoff && maps_from(es, k, f, a) implies #[trigger] mapping_laws::maps(
                res,
                f,
                a,
            ) by {
                if mapping_laws::leads(e, f, a) {
                    assert(mapping_laws::leads(x, f, a));
                    assert(mapping_laws::maps(more, f, a));
                } else {
                    assert(maps_from(es, k + 1, f, a));
                }
            }
            assert forall|f: int, a: int| #[trigger]
                mapping_laws::maps(res, f, a) implies mapping_laws::maps(keep, f, a) || (maps_from(
                es,
                k,
                f,
                a,
            ) && f < cutoff + 256) by {
                if mapping_laws::maps(more, f, a) && !mapping_laws::maps(keep, f, a) {
                    assert(mapping_laws::leads(x, f, a));
                    assert(mapping_laws::leads(e, f, a));
                    assert(maps_from(es, k, f, a));
                } else if !mapping_laws::maps(more, f, a) {
                    assert(maps_from(es, k + 1, f, a));
                }
            }
        }
    }
}

/// What one more extent maps.
proof fn lemma_push_maps(es: Seq<Extent>, e: Extent)
    ensures
        forall|f: int, a: int| #[trigger]
            mapping_laws::maps(es.push(e), f, a) == (mapping_laws::maps(es, f, a)
                || mapping_laws::leads(e, f, a)),
{
    let all = es.push(e);
    assert forall|f: int, a: int| #[trigger]
        mapping_laws::maps(all, f, a) == (mapping_laws::maps(es, f, a) || mapping_laws::leads(
            e,
            f,
            a,
        )) by {
        if mapping_laws::maps(es, f, a) {
            let i = choose|i: int| 0 <= i < es.len() && #[trigger] mapping_laws::leads(es[i], f, a);
            assert(all[i] == es[i]);
        }
        if mapping_laws::leads(e, f, a) {
            assert(all[es.len() as int] == e);
        }
        if mapping_laws::maps(all, f, a) {
            let i = choose|i: int|
                0 <= i < all.len() && #[trigger] mapping_laws::leads(all[i], f, a);
            if i < es.len() {
                assert(all[i] == es[i]);
            }
        }
    }
}

/// Cutting a file with inline extents at `cutoff` blocks: blocks before the
/// cut are mapped as before; nothing is mapped that was not; and less than one
/// cell's worth of blocks behind the cut stays.
pub proof fn law_truncating_keeps_the_front(v: Vol, p: Pool, m: Mp, cutoff: int)
    requires
        m.format == FMT_EXTENT,
        mapping_laws::apart(inode::extents_of(m.payload)),
        0 <= cutoff,
        truncate::truncated(v, p, m, cutoff).2 is Ok,
    ensures
        ({
            let es = inode::extents_of(m.payload);
            let m1 = truncate::truncated(v, p, m, cutoff).1;
            let es1 = inode::extents_of(m1.payload);
            &&& m1.format == FMT_EXTENT
            &&& forall|f: int, a: int|
                f < cutoff ==> #[trigger] mapping_laws::maps(es1, f, a) == mapping_laws::maps(
                    es,
                    f,
                    a,
                )
            &&& forall|f: int, a: int| #[trigger]
                mapping_laws::maps(es1, f, a) ==> mapping_laws::maps(es, f, a) && f < cutoff + 256
        }),
{
    let es = inode::extents_of(m.payload);
    let keep = truncate::extents_cut(v, p, es, cutoff, 0, Seq::empty(), 0).1->Ok_0.0;
    lemma_extents_cut(v, p, es, cutoff, 0, Seq::empty(), 0);
    inode::lemma_extents_few(m.payload, 0);
    inode::law_extents_round_trip(keep);
    assert forall|f: int, a: int| mapping_laws::maps(es, f, a) == #[trigger] maps_from(
        es,
        0,
        f,
        a,
    ) by {}
    assert forall|f: int, a: int|
        f < cutoff implies #[trigger] mapping_laws::maps(keep, f, a) == mapping_laws::maps(
        es,
        f,
        a,
    ) by {
        assert(mapping_laws::maps(es, f, a) == maps_from(es, 0, f, a));
        assert(!mapping_laws::maps(Seq::empty(), f, a));
    }
    assert forall|f: int, a: int| #[trigger]
        mapping_laws::maps(keep, f, a) implies mapping_laws::maps(es, f, a) && f < cutoff + 256 by {
        assert(mapping_laws::maps(es, f, a) == maps_from(es, 0, f, a));
        assert(!mapping_laws::maps(Seq::empty(), f, a));
    }
}

// --- the blocks ---------------------------------------------------------------

/// The extent lies in the group.
pub open spec fn inside(hdr: AgHeader, e: Extent) -> bool {
    &&& fmt::addr_ag(e.blk) == hdr.ag_num
    &&& fmt::addr_local(e.blk) + e.blocks <= tables::block_count(hdr)
    &&& fmt::addr_local(e.blk) + e.blocks <= u32::MAX
}

/// The block at address `a` is free.
pub open spec fn is_free(v: Vol, t: Map<u64, Seq<u8>>, hdr: AgHeader, a: int) -> bool {
    tables::block_state(v, t, hdr, fmt::addr_local(a as u64) as int) == Ok::<u8, FsError>(
        CELL_FREE,
    )
}

/// The tables of the group are sound under its header.
pub open spec fn settled(v: Vol, t: Map<u64, Seq<u8>>, hdr: AgHeader) -> bool {
    &&& fs::header_of(v, t, hdr.ag_num) == Ok::<AgHeader, FsError>(hdr)
    &&& tables::sound(v, t, hdr)
}

/// Freeing a run: its blocks are free, what was free stays so, and the tables
/// stay sound.
proof fn lemma_run_freed(v: Vol, p: Pool, hdr: AgHeader, blk: u64, n: int) -> (hdr1: AgHeader)
    requires
        settled(v, p.t, hdr),
        fmt::addr_ag(blk) == hdr.ag_num,
        0 <= n,
        fmt::addr_local(blk) + n <= tables::block_count(hdr),
        allocator::freed(v, p, blk, n).1 is Ok,
    ensures
        ({
            let t1 = allocator::freed(v, p, blk, n).0.t;
            let b = fmt::addr_local(blk) as int;
            &&& tables::same_place(hdr, hdr1)
            &&& settled(v, t1, hdr1)
            &&& forall|x: int|
                b <= x < b + n ==> #[trigger] tables::block_state(v, t1, hdr, x) == Ok::<
                    u8,
                    FsError,
                >(CELL_FREE)
            &&& forall|x: int|
                0 <= x < tables::block_count(hdr) && tables::block_state(v, p.t, hdr, x) == Ok::<
                    u8,
                    FsError,
                >(CELL_FREE) ==> #[trigger] tables::block_state(v, t1, hdr, x) == Ok::<
                    u8,
                    FsError,
                >(CELL_FREE)
            &&& let_go::let_go(v, p.t, hdr, t1, let_go::span(b, b + n))
        }),
{
    let t1 = allocator::freed(v, p, blk, n).0.t;
    let b = fmt::addr_local(blk) as int;
    allocator_laws::law_freeing_frees_its_blocks(v, p, blk, hdr, n);
    let end = allocator_laws::freed_end(v, p.t, hdr, b, n);
    let_go::lemma_run_let_go(v, p, blk, hdr, n);
    assert forall|x: int| 0 <= x < tables::block_count(hdr) implies #[trigger]
        allocator_laws::given_at(v, p.t, t1, hdr, b, end, x) by {}
    assert forall|x: int| b <= x < b + n implies #[trigger] tables::block_state(v, t1, hdr, x)
        == Ok::<u8, FsError>(CELL_FREE) by {
        assert(allocator_laws::given_at(v, p.t, t1, hdr, b, end, x));
    }
    assert forall|x: int|
        0 <= x < tables::block_count(hdr) && tables::block_state(v, p.t, hdr, x) == Ok::<
            u8,
            FsError,
        >(CELL_FREE) implies #[trigger] tables::block_state(v, t1, hdr, x) == Ok::<u8, FsError>(
        CELL_FREE,
    ) by {
        assert(allocator_laws::given_at(v, p.t, t1, hdr, b, end, x));
    }
    fs::header_of(v, t1, hdr.ag_num)->Ok_0
}

/// The blocks that the extents from `k` on map and `rest` does not.
pub open spec fn dropped(es: Seq<Extent>, k: int, rest: Seq<Extent>) -> Set<int> {
    Set::new(|b: int| exists|f: int, a: int| #[trigger] drops(es, k, rest, f, a, b))
}

/// The extents from `k` on map file block `f` to address `a`, which is block `b` of its
/// group, and `rest` does not.
pub open spec fn drops(
    es: Seq<Extent>,
    k: int,
    rest: Seq<Extent>,
    f: int,
    a: int,
    b: int,
) -> bool {
    &&& maps_from(es, k, f, a)
    &&& !mapping_laws::maps(rest, f, a)
    &&& b == fmt::addr_local(a as u64)
}

/// The blocks of a run of an extent that `rest` does not map.
proof fn lemma_run_dropped(
    v: Vol,
    t: Map<u64, Seq<u8>>,
    hdr: AgHeader,
    t1: Map<u64, Seq<u8>>,
    es: Seq<Extent>,
    k: int,
    rest: Seq<Extent>,
    from: int,
)
    requires
        0 <= k < es.len(),
        inside(hdr, es[k]),
        0 <= from <= es[k].blocks,
        forall|f: int, a: int|
            mapping_laws::leads(es[k], f, a) && f >= es[k].file_block + from
                ==> !#[trigger] mapping_laws::maps(rest, f, a),
        let_go::let_go(
            v,
            t,
            hdr,
            t1,
            let_go::span(
                fmt::addr_local(es[k].blk) + from,
                fmt::addr_local(es[k].blk) + es[k].blocks,
            ),
        ),
    ensures
        let_go::let_go(v, t, hdr, t1, dropped(es, k, rest)),
{
    let e = es[k];
    let lo = fmt::addr_local(e.blk) + from;
    let hi = fmt::addr_local(e.blk) + e.blocks;
    let d = dropped(es, k, rest);
    assert forall|b: int| #[trigger] let_go::span(lo, hi).contains(b) implies d.contains(b) by {
        let i = b - fmt::addr_local(e.blk);
        let f = e.file_block + i;
        let a = e.blk + i;
        assert(mapping_laws::leads(es[k], f, a));
        lemma_inside(hdr, e, f, a);
        assert(!mapping_laws::maps(rest, f, a));
        assert(drops(es, k, rest, f, a, b));
    }
    let_go::lemma_let_go_more(v, t, hdr, t1, let_go::span(lo, hi), d);
}

/// What is dropped from `k + 1` on is dropped from `k` on.
proof fn lemma_dropped_more(es: Seq<Extent>, k: int, rest: Seq<Extent>)
    ensures
        forall|b: int| #[trigger]
            dropped(es, k + 1, rest).contains(b) ==> dropped(es, k, rest).contains(b),
{
    assert forall|b: int| #[trigger] dropped(es, k + 1, rest).contains(b) implies dropped(
        es,
        k,
        rest,
    ).contains(b) by {
        let (f, a) = choose|f: int, a: int| #[trigger] drops(es, k + 1, rest, f, a, b);
        assert(drops(es, k, rest, f, a, b));
    }
}

/// The address of block `f` of an extent in the group.
proof fn lemma_inside(hdr: AgHeader, e: Extent, f: int, a: int)
    requires
        inside(hdr, e),
        mapping_laws::leads(e, f, a),
    ensures
        0 <= a <= u64::MAX,
        fmt::addr_ag(a as u64) == hdr.ag_num,
        fmt::addr_local(a as u64) == fmt::addr_local(e.blk) + (f - e.file_block),
{
    let i = f - e.file_block;
    let local = fmt::addr_local(e.blk);
    fmt::law_address_halves(0, 0, e.blk);
    fmt::law_address_halves(hdr.ag_num, (local + i) as u32, 0);
    assert(a == fmt::addr_of(hdr.ag_num, (local + i) as u32));
}

/// Freeing the extents from `k` on frees their blocks.
proof fn lemma_extents_freed(v: Vol, p: Pool, hdr: AgHeader, es: Seq<Extent>, k: int) -> (hdr1:
    AgHeader)
    requires
        settled(v, p.t, hdr),
        0 <= k,
        forall|i: int| k <= i < es.len() ==> inside(hdr, #[trigger] es[i]),
        truncate::extents_freed(v, p, es, k).1 is Ok,
    ensures
        ({
            let t1 = truncate::extents_freed(v, p, es, k).0.t;
            &&& tables::same_place(hdr, hdr1)
            &&& settled(v, t1, hdr1)
            &&& forall|f: int, a: int| #[trigger]
                maps_from(es, k, f, a) ==> is_free(v, t1, hdr, a)
            &&& forall|x: int|
                0 <= x < tables::block_count(hdr) && tables::block_state(v, p.t, hdr, x) == Ok::<
                    u8,
                    FsError,
                >(CELL_FREE) ==> #[trigger] tables::block_state(v, t1, hdr, x) == Ok::<
                    u8,
                    FsError,
                >(CELL_FREE)
            &&& let_go::let_go(v, p.t, hdr, t1, dropped(es, k, Seq::empty()))
        }),
    decreases es.len() - k,
{
    let none = Seq::<Extent>::empty();
    if k >= es.len() {
        let_go::lemma_let_go_none(v, p.t, hdr, dropped(es, k, none));
        hdr
    } else {
        let e = es[k];
        let (p1, r1) = allocator::freed(v, p, e.blk, e.blocks as int);
        assert(inside(hdr, es[k]));
        let hdr1 = lemma_run_freed(v, p, hdr, e.blk, e.blocks as int);
        assert forall|i: int| k + 1 <= i < es.len() implies inside(hdr1, #[trigger] es[i]) by {
            assert(inside(hdr, es[i]));
        }
        let hdr2 = lemma_extents_freed(v, p1, hdr1, es, k + 1);
        let t2 = truncate::extents_freed(v, p, es, k).0.t;
        lemma_run_dropped(v, p.t, hdr, p1.t, es, k, none, 0);
        lemma_dropped_more(es, k, none);
        let_go::lemma_let_go_more(
            v,
            p1.t,
            hdr1,
            t2,
            dropped(es, k + 1, none),
            dropped(es, k, none),
        );
        let_go::lemma_let_go_twice(v, p.t, hdr, p1.t, hdr1, t2, dropped(es, k, none));
        assert forall|x: int|
            0 <= x < tables::block_count(hdr) && tables::block_state(v, p1.t, hdr, x) == Ok::<
                u8,
                FsError,
            >(CELL_FREE) implies #[trigger] tables::block_state(v, t2, hdr, x) == Ok::<
            u8,
            FsError,
        >(CELL_FREE) by {
            tables::lemma_state_place(v, p1.t, hdr, hdr1, x);
            tables::lemma_state_place(v, t2, hdr, hdr1, x);
        }
        assert forall|f: int, a: int| #[trigger] maps_from(es, k, f, a) implies is_free(
            v,
            t2,
            hdr,
            a,
        ) by {
            let i = choose|i: int| k <= i < es.len() && #[trigger] mapping_laws::leads(es[i], f, a);
            assert(inside(hdr, es[i]));
            lemma_inside(hdr, es[i], f, a);
            if i == k {
                let x = fmt::addr_local(e.blk) + (f - e.file_block);
                assert(tables::block_state(v, p1.t, hdr, x) == Ok::<u8, FsError>(CELL_FREE));
            } else {
                assert(maps_from(es, k + 1, f, a));
                tables::lemma_state_place(v, t2, hdr, hdr1, fmt::addr_local(a as u64) as int);
            }
        }
        hdr2
    }
}

/// Freeing a file with inline extents frees every block that it had, and
/// leaves sound tables. A block changes only where it shares a smallest cell with one
/// that the file had, and every other block of the group keeps its state.
pub proof fn law_freeing_a_file_frees_its_blocks(v: Vol, p: Pool, hdr: AgHeader, m: Mp) -> (hdr1:
    AgHeader)
    requires
        m.format == FMT_EXTENT,
        settled(v, p.t, hdr),
        forall|i: int|
            0 <= i < inode::extents_of(m.payload).len() ==> inside(
                hdr,
                #[trigger] inode::extents_of(m.payload)[i],
            ),
        truncate::all_freed(v, p, m).1 is Ok,
    ensures
        ({
            let t1 = truncate::all_freed(v, p, m).0.t;
            &&& tables::same_place(hdr, hdr1)
            &&& settled(v, t1, hdr1)
            &&& forall|f: int, a: int| #[trigger]
                mapping_laws::maps(inode::extents_of(m.payload), f, a) ==> is_free(v, t1, hdr, a)
            &&& let_go::let_go(
                v,
                p.t,
                hdr,
                t1,
                dropped(inode::extents_of(m.payload), 0, Seq::empty()),
            )
            &&& forall|x: int|
                0 <= x < tables::block_count(hdr) && !let_go::near(
                    v,
                    p.t,
                    hdr,
                    dropped(inode::extents_of(m.payload), 0, Seq::empty()),
                    x,
                ) ==> #[trigger] tables::block_state(v, t1, hdr, x) == tables::block_state(
                    v,
                    p.t,
                    hdr,
                    x,
                )
        }),
{
    let es = inode::extents_of(m.payload);
    let t1 = truncate::all_freed(v, p, m).0.t;
    let hdr1 = lemma_extents_freed(v, p, hdr, es, 0);
    assert forall|f: int, a: int| #[trigger] mapping_laws::maps(es, f, a) implies is_free(
        v,
        t1,
        hdr,
        a,
    ) by {
        assert(maps_from(es, 0, f, a));
    }
    let d = dropped(es, 0, Seq::empty());
    assert forall|x: int|
        0 <= x < tables::block_count(hdr) && !let_go::near(
            v,
            p.t,
            hdr,
            d,
            x,
        ) implies #[trigger] tables::block_state(v, t1, hdr, x) == tables::block_state(
        v,
        p.t,
        hdr,
        x,
    ) by {
        let_go::lemma_spared(v, p.t, hdr, t1, d, x);
    }
    hdr1
}

/// Cutting one extent: what is cut off is free.
#[verifier::rlimit(40)]
#[verifier::spinoff_prover]
proof fn lemma_one_cut(v: Vol, p: Pool, hdr: AgHeader, e: Extent, cutoff: int) -> (hdr1: AgHeader)
    requires
        settled(v, p.t, hdr),
        inside(hdr, e),
        e.file_block < cutoff < e.file_block + e.blocks,
        truncate::run_cut(v, p, e.blk, e.blocks as int, cutoff - e.file_block).1 is Ok,
    ensures
        ({
            let (p1, r) = truncate::run_cut(
                v,
                p,
                e.blk,
                e.blocks as int,
                cutoff - e.file_block,
            );
            let b = fmt::addr_local(e.blk) as int;
            &&& tables::same_place(hdr, hdr1)
            &&& settled(v, p1.t, hdr1)
            &&& forall|x: int|
                b + r->Ok_0 <= x < b + e.blocks ==> #[trigger] tables::block_state(
                    v,
                    p1.t,
                    hdr,
                    x,
                ) == Ok::<u8, FsError>(CELL_FREE)
            &&& forall|x: int|
                0 <= x < tables::block_count(hdr) && tables::block_state(v, p.t, hdr, x) == Ok::<
                    u8,
                    FsError,
                >(CELL_FREE) ==> #[trigger] tables::block_state(v, p1.t, hdr, x) == Ok::<
                    u8,
                    FsError,
                >(CELL_FREE)
            &&& let_go::let_go(v, p.t, hdr, p1.t, let_go::span(b + r->Ok_0, b + e.blocks))
        }),
{
    let keep = cutoff - e.file_block;
    let kept = truncate::run_cut(v, p, e.blk, e.blocks as int, keep).1->Ok_0;
    lemma_run_cut(v, p, e.blk, e.blocks as int, keep);
    if kept >= e.blocks {
        let b = fmt::addr_local(e.blk) as int;
        let_go::lemma_let_go_none(v, p.t, hdr, let_go::span(b + kept, b + e.blocks));
        hdr
    } else {
        lemma_inside(hdr, e, e.file_block + kept, e.blk + kept);
        lemma_run_freed(v, p, hdr, (e.blk + kept) as u64, e.blocks - kept)
    }
}

/// What is kept lies at file blocks of none of the extents from `k` on.
spec fn kept_apart(es: Seq<Extent>, k: int, keep: Seq<Extent>) -> bool {
    forall|f: int, a: int, i: int|
        k <= i < es.len() && #[trigger] mapping_laws::maps(keep, f, a) ==> !mapping::covers(
            #[trigger] es[i],
            f,
        )
}

proof fn lemma_kept_apart(es: Seq<Extent>, k: int, keep: Seq<Extent>, x: Extent)
    requires
        mapping_laws::apart(es),
        0 <= k < es.len(),
        kept_apart(es, k, keep),
        x.file_block == es[k].file_block,
        x.blocks <= es[k].blocks,
    ensures
        kept_apart(es, k + 1, keep),
        kept_apart(es, k + 1, keep.push(x)),
{
    lemma_push_maps(keep, x);
    assert forall|f: int, a: int, i: int|
        k + 1 <= i < es.len() && #[trigger] mapping_laws::maps(
            keep.push(x),
            f,
            a,
        ) implies !mapping::covers(#[trigger] es[i], f) by {
        if !mapping_laws::maps(keep, f, a) {
            assert(mapping_laws::leads(x, f, a));
            assert(mapping_laws::disjoint(es[k], es[i]));
        }
    }
}

/// What is cut off an extent is not mapped afterwards.
proof fn lemma_not_mapped(
    es: Seq<Extent>,
    k: int,
    keep: Seq<Extent>,
    more: Seq<Extent>,
    x: Extent,
    kept: int,
    res: Seq<Extent>,
)
    requires
        mapping_laws::apart(es),
        0 <= k < es.len(),
        kept_apart(es, k, keep),
        x.file_block == es[k].file_block,
        x.blocks == kept,
        more == keep || more == keep.push(x),
        forall|f: int, a: int| #[trigger]
            mapping_laws::maps(res, f, a) ==> mapping_laws::maps(more, f, a) || maps_from(
                es,
                k + 1,
                f,
                a,
            ),
    ensures
        forall|f: int, a: int|
            mapping_laws::leads(es[k], f, a) && f >= es[k].file_block + kept
                ==> !#[trigger] mapping_laws::maps(res, f, a),
{
    lemma_push_maps(keep, x);
    assert forall|f: int, a: int|
        mapping_laws::leads(es[k], f, a) && f >= es[k].file_block
            + kept implies !#[trigger] mapping_laws::maps(res, f, a) by {
        if mapping_laws::maps(res, f, a) {
            if maps_from(es, k + 1, f, a) {
                let i = choose|i: int|
                    k + 1 <= i < es.len() && #[trigger] mapping_laws::leads(es[i], f, a);
                assert(mapping_laws::disjoint(es[k], es[i]));
            } else {
                assert(!mapping_laws::leads(x, f, a));
                assert(mapping_laws::maps(keep, f, a));
                assert(mapping::covers(es[k], f));
            }
        }
    }
}

/// Cutting the extents from `k` on: blocks of theirs that are no longer mapped
/// are free.
#[verifier::rlimit(40)]
proof fn lemma_tail_freed(
    v: Vol,
    p: Pool,
    hdr: AgHeader,
    es: Seq<Extent>,
    cutoff: int,
    k: int,
    keep: Seq<Extent>,
    acc: int,
) -> (hdr1: AgHeader)
    requires
        mapping_laws::apart(es),
        settled(v, p.t, hdr),
        0 <= k,
        0 <= cutoff,
        forall|i: int| k <= i < es.len() ==> inside(hdr, #[trigger] es[i]),
        forall|i: int| 0 <= i < keep.len() ==> (#[trigger] keep[i]).blocks > 0,
        truncate::extents_cut(v, p, es, cutoff, k, keep, acc).1 is Ok,
    ensures
        ({
            let (p1, r) = truncate::extents_cut(v, p, es, cutoff, k, keep, acc);
            &&& tables::same_place(hdr, hdr1)
            &&& settled(v, p1.t, hdr1)
            &&& forall|f: int, a: int| #[trigger]
                maps_from(es, k, f, a) && !mapping_laws::maps(r->Ok_0.0, f, a) ==> is_free(
                    v,
                    p1.t,
                    hdr,
                    a,
                )
            &&& forall|x: int|
                0 <= x < tables::block_count(hdr) && tables::block_state(v, p.t, hdr, x) == Ok::<
                    u8,
                    FsError,
                >(CELL_FREE) ==> #[trigger] tables::block_state(v, p1.t, hdr, x) == Ok::<
                    u8,
                    FsError,
                >(CELL_FREE)
        }),
    decreases es.len() - k,
{
    if k >= es.len() {
        hdr
    } else {
        let e = es[k];
        assert(inside(hdr, es[k]));
        assert(mapping_laws::extent_ok(es[k]));
        let (p2, r2) = truncate::extents_cut(v, p, es, cutoff, k, keep, acc);
        let t2 = p2.t;
        let res = r2->Ok_0.0;
        let b = fmt::addr_local(e.blk) as int;
        let whole = e.file_block >= cutoff;
        let part = !whole && e.file_block + e.blocks > cutoff;
        // how much of this extent is kept, and the state behind it
        let kept = if whole {
            0
        } else if part {
            truncate::run_cut(v, p, e.blk, e.blocks as int, cutoff - e.file_block).1->Ok_0
        } else {
            e.blocks as int
        };
        let p1 = if whole {
            allocator::freed(v, p, e.blk, e.blocks as int).0
        } else if part {
            truncate::run_cut(v, p, e.blk, e.blocks as int, cutoff - e.file_block).0
        } else {
            p
        };
        let x = Extent { blocks: kept as u32, ..e };
        let more = if whole {
            keep
        } else {
            keep.push(x)
        };
        if part {
            lemma_run_cut(v, p, e.blk, e.blocks as int, cutoff - e.file_block);
        }
        let hdr1 = if whole {
            lemma_run_freed(v, p, hdr, e.blk, e.blocks as int)
        } else if part {
            lemma_one_cut(v, p, hdr, e, cutoff)
        } else {
            hdr
        };
        assert(!whole && !part ==> x == e);
        assert((p2, r2) == truncate::extents_cut(
            v,
            p1,
            es,
            cutoff,
            k + 1,
            more,
            acc + (e.blocks - kept),
        ));
        assert forall|i: int| k + 1 <= i < es.len() implies inside(hdr1, #[trigger] es[i]) by {
            assert(inside(hdr, es[i]));
        }
        lemma_push_maps(keep, x);
        let hdr2 = lemma_tail_freed(
            v,
            p1,
            hdr1,
            es,
            cutoff,
            k + 1,
            more,
            acc + (e.blocks - kept),
        );
        lemma_extents_cut(v, p1, es, cutoff, k + 1, more, acc + (e.blocks - kept));
        assert forall|y: int|
            0 <= y < tables::block_count(hdr) && tables::block_state(v, p1.t, hdr, y) == Ok::<
                u8,
                FsError,
            >(CELL_FREE) implies #[trigger] tables::block_state(v, t2, hdr, y) == Ok::<
            u8,
            FsError,
        >(CELL_FREE) by {
            tables::lemma_state_place(v, p1.t, hdr, hdr1, y);
            tables::lemma_state_place(v, t2, hdr, hdr1, y);
        }
        assert forall|f: int, a: int| #[trigger]
            maps_from(es, k, f, a) && !mapping_laws::maps(res, f, a) implies is_free(
            v,
            t2,
            hdr,
            a,
        ) by {
            let i = choose|i: int| k <= i < es.len() && #[trigger] mapping_laws::leads(es[i], f, a);
            assert(inside(hdr, es[i]));
            lemma_inside(hdr, es[i], f, a);
            if i == k {
                if !whole && f < e.file_block + kept {
                    assert(mapping_laws::leads(x, f, a));
                    assert(mapping_laws::maps(more, f, a));
                }
                let y = b + (f - e.file_block);
                assert(tables::block_state(v, p1.t, hdr, y) == Ok::<u8, FsError>(CELL_FREE));
            } else {
                assert(maps_from(es, k + 1, f, a));
                tables::lemma_state_place(v, t2, hdr, hdr1, fmt::addr_local(a as u64) as int);
            }
        }
        hdr2
    }
}

/// Cutting the extents from `k` on lets go of what they no longer map.
#[verifier::rlimit(40)]
#[verifier::spinoff_prover]
proof fn lemma_tail_let_go(
    v: Vol,
    p: Pool,
    hdr: AgHeader,
    es: Seq<Extent>,
    cutoff: int,
    k: int,
    keep: Seq<Extent>,
    acc: int,
)
    requires
        mapping_laws::apart(es),
        settled(v, p.t, hdr),
        0 <= k,
        0 <= cutoff,
        forall|i: int| k <= i < es.len() ==> inside(hdr, #[trigger] es[i]),
        forall|i: int| 0 <= i < keep.len() ==> (#[trigger] keep[i]).blocks > 0,
        kept_apart(es, k, keep),
        truncate::extents_cut(v, p, es, cutoff, k, keep, acc).1 is Ok,
    ensures
        ({
            let (p1, r) = truncate::extents_cut(v, p, es, cutoff, k, keep, acc);
            let_go::let_go(v, p.t, hdr, p1.t, dropped(es, k, r->Ok_0.0))
        }),
    decreases es.len() - k, 1int,
{
    if k >= es.len() {
        let_go::lemma_let_go_none(v, p.t, hdr, dropped(es, k, keep));
    } else {
        let e = es[k];
        assert(inside(hdr, es[k]));
        assert(mapping_laws::extent_ok(es[k]));
        let b = fmt::addr_local(e.blk) as int;
        let none = e.file_block + e.blocks <= cutoff;
        let (p1, kept, hdr1) = if e.file_block >= cutoff {
            (
                allocator::freed(v, p, e.blk, e.blocks as int).0,
                0int,
                lemma_run_freed(v, p, hdr, e.blk, e.blocks as int),
            )
        } else if none {
            let_go::lemma_let_go_none(v, p.t, hdr, let_go::span(b + e.blocks, b + e.blocks));
            (p, e.blocks as int, hdr)
        } else {
            lemma_run_cut(v, p, e.blk, e.blocks as int, cutoff - e.file_block);
            let (q, r) = truncate::run_cut(v, p, e.blk, e.blocks as int, cutoff - e.file_block);
            (q, r->Ok_0, lemma_one_cut(v, p, hdr, e, cutoff))
        };
        let x = Extent { blocks: kept as u32, ..e };
        let more = if e.file_block >= cutoff {
            keep
        } else {
            keep.push(x)
        };
        let sum = acc + (e.blocks - kept);
        assert(none ==> x == e);
        assert(truncate::extents_cut(v, p, es, cutoff, k, keep, acc) == truncate::extents_cut(
            v,
            p1,
            es,
            cutoff,
            k + 1,
            more,
            sum,
        ));
        assert(let_go::span(b + kept, b + e.blocks) == let_go::span(
            fmt::addr_local(es[k].blk) + kept,
            fmt::addr_local(es[k].blk) + es[k].blocks,
        ));
        lemma_tail_step(v, p.t, hdr, p1, hdr1, es, cutoff, k, keep, more, x, kept, sum);
    }
}

/// One extent cut, and then the rest.
#[verifier::rlimit(40)]
proof fn lemma_tail_step(
    v: Vol,
    t: Map<u64, Seq<u8>>,
    hdr: AgHeader,
    p1: Pool,
    hdr1: AgHeader,
    es: Seq<Extent>,
    cutoff: int,
    k: int,
    keep: Seq<Extent>,
    more: Seq<Extent>,
    x: Extent,
    kept: int,
    sum: int,
)
    requires
        mapping_laws::apart(es),
        0 <= k < es.len(),
        0 <= cutoff,
        tables::same_place(hdr, hdr1),
        settled(v, p1.t, hdr1),
        forall|i: int| k <= i < es.len() ==> inside(hdr, #[trigger] es[i]),
        forall|i: int| 0 <= i < more.len() ==> (#[trigger] more[i]).blocks > 0,
        kept_apart(es, k, keep),
        more == keep || more == keep.push(x),
        x.file_block == es[k].file_block,
        x.blocks == kept,
        0 <= kept <= es[k].blocks,
        let_go::let_go(
            v,
            t,
            hdr,
            p1.t,
            let_go::span(
                fmt::addr_local(es[k].blk) + kept,
                fmt::addr_local(es[k].blk) + es[k].blocks,
            ),
        ),
        truncate::extents_cut(v, p1, es, cutoff, k + 1, more, sum).1 is Ok,
    ensures
        ({
            let (p2, r) = truncate::extents_cut(v, p1, es, cutoff, k + 1, more, sum);
            let_go::let_go(v, t, hdr, p2.t, dropped(es, k, r->Ok_0.0))
        }),
    decreases es.len() - k, 0int,
{
    let (p2, r) = truncate::extents_cut(v, p1, es, cutoff, k + 1, more, sum);
    let res = r->Ok_0.0;
    let d = dropped(es, k, res);
    lemma_kept_apart(es, k, keep, x);
    assert forall|i: int| k + 1 <= i < es.len() implies inside(hdr1, #[trigger] es[i]) by {
        assert(inside(hdr, es[i]));
    }
    lemma_tail_let_go(v, p1, hdr1, es, cutoff, k + 1, more, sum);
    lemma_extents_cut(v, p1, es, cutoff, k + 1, more, sum);
    lemma_not_mapped(es, k, keep, more, x, kept, res);
    lemma_run_dropped(v, t, hdr, p1.t, es, k, res, kept);
    lemma_dropped_more(es, k, res);
    let_go::lemma_let_go_more(v, p1.t, hdr1, p2.t, dropped(es, k + 1, res), d);
    let_go::lemma_let_go_twice(v, t, hdr, p1.t, hdr1, p2.t, d);
}

/// Cutting a file with inline extents: every block that is no longer mapped is
/// free, and the tables are sound. A block changes only where it shares a smallest cell
/// with one that the file gave up, and every other block of the group keeps its state.
pub proof fn law_truncating_frees_the_tail(v: Vol, p: Pool, hdr: AgHeader, m: Mp, cutoff: int) -> (hdr1:
    AgHeader)
    requires
        m.format == FMT_EXTENT,
        mapping_laws::apart(inode::extents_of(m.payload)),
        settled(v, p.t, hdr),
        0 <= cutoff,
        forall|i: int|
            0 <= i < inode::extents_of(m.payload).len() ==> inside(
                hdr,
                #[trigger] inode::extents_of(m.payload)[i],
            ),
        truncate::truncated(v, p, m, cutoff).2 is Ok,
    ensures
        ({
            let (p1, m1, _) = truncate::truncated(v, p, m, cutoff);
            &&& tables::same_place(hdr, hdr1)
            &&& settled(v, p1.t, hdr1)
            &&& forall|f: int, a: int| #[trigger]
                mapping_laws::maps(inode::extents_of(m.payload), f, a) && !mapping_laws::maps(
                    inode::extents_of(m1.payload),
                    f,
                    a,
                ) ==> is_free(v, p1.t, hdr, a)
            &&& let_go::let_go(
                v,
                p.t,
                hdr,
                p1.t,
                dropped(inode::extents_of(m.payload), 0, inode::extents_of(m1.payload)),
            )
            &&& forall|x: int|
                0 <= x < tables::block_count(hdr) && !let_go::near(
                    v,
                    p.t,
                    hdr,
                    dropped(inode::extents_of(m.payload), 0, inode::extents_of(m1.payload)),
                    x,
                ) ==> #[trigger] tables::block_state(v, p1.t, hdr, x) == tables::block_state(
                    v,
                    p.t,
                    hdr,
                    x,
                )
        }),
{
    let es = inode::extents_of(m.payload);
    let (p1, m1, _) = truncate::truncated(v, p, m, cutoff);
    let keep = truncate::extents_cut(v, p, es, cutoff, 0, Seq::empty(), 0).1->Ok_0.0;
    lemma_extents_cut(v, p, es, cutoff, 0, Seq::empty(), 0);
    inode::lemma_extents_few(m.payload, 0);
    inode::law_extents_round_trip(keep);
    let hdr1 = lemma_tail_freed(v, p, hdr, es, cutoff, 0, Seq::empty(), 0);
    lemma_tail_let_go(v, p, hdr, es, cutoff, 0, Seq::empty(), 0);
    assert forall|f: int, a: int| #[trigger]
        mapping_laws::maps(es, f, a) && !mapping_laws::maps(
            inode::extents_of(m1.payload),
            f,
            a,
        ) implies is_free(v, p1.t, hdr, a) by {
        assert(maps_from(es, 0, f, a));
    }
    let d = dropped(es, 0, inode::extents_of(m1.payload));
    assert forall|x: int|
        0 <= x < tables::block_count(hdr) && !let_go::near(
            v,
            p.t,
            hdr,
            d,
            x,
        ) implies #[trigger] tables::block_state(v, p1.t, hdr, x) == tables::block_state(
        v,
        p.t,
        hdr,
        x,
    ) by {
        let_go::lemma_spared(v, p.t, hdr, p1.t, d, x);
    }
    hdr1
}

} // verus!
