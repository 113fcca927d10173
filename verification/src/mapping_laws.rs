//! What the mapping of a file promises: the runs that are handed out tile the
//! range that was asked for, and a file that grows keeps every block it had.

use crate::allocator::Pool;
use crate::error::FsError;
use crate::extent::Work;
use crate::fmt::{CELL_FREE, CELL_REFINED, FMT_EXTENT, FMT_TREE, MAX_INLINE_EXTENTS};
use crate::header::AgHeader;
use crate::inode::Extent;
use crate::mapping::{Mapping, Mp};
use crate::vol::Vol;
use vstd::prelude::*;

use crate::allocator;
use crate::allocator_laws;
use crate::extent;
use crate::fmt;
use crate::fs;
use crate::inode;
use crate::mapping;
use crate::spares;
use crate::tables;
use crate::treenode;
use crate::vol;

verus! {

// --- runs ---------------------------------------------------------------------

/// Runs one after the other from `from` to `to`, none of them empty.
pub open spec fn tiles(runs: Seq<(u64, u64, u64, bool)>, from: int, to: int) -> bool
    decreases runs.len(),
{
    if runs.len() == 0 {
        from == to
    } else {
        let (f, _, n, _) = runs.last();
        f + n == to && n > 0 && tiles(runs.drop_last(), from, f as int)
    }
}

/// A run is what the mapping says of its first block.
pub open spec fn mapped_run(v: Vol, t: Map<u64, Seq<u8>>, m: Mp, r: (u64, u64, u64, bool)) -> bool {
    mapping::map_of(v, t, m, r.0 as int) matches Ok(Mapping::Run { blk, len }) && blk == r.1 && len
        >= r.2
}

/// A run is never empty.
proof fn lemma_run_len(v: Vol, t: Map<u64, Seq<u8>>, m: Mp, f: int)
    requires
        0 <= f,
    ensures
        mapping::map_of(v, t, m, f) matches Ok(Mapping::Run { blk, len }) ==> len > 0,
{
    if m.format == FMT_EXTENT {
        lemma_extents_len(inode::extents_of(m.payload), 0, f, u64::MAX as int);
    } else if m.format == FMT_TREE {
        let level = m.payload[0] as int;
        let c = treenode::cover(level);
        treenode::lemma_cover_monotonic(level, level);
        lemma_child_len(v, t, treenode::root_at(m.payload, f / c), f % c, level);
    }
}

proof fn lemma_extents_len(es: Seq<Extent>, i: int, f: int, next: int)
    ensures
        mapping::extents_map(es, i, f, next) matches Ok(Mapping::Run { blk, len }) ==> len > 0,
    decreases es.len() - i,
{
    if i < es.len() && !mapping::covers(es[i], f) {
        let n = if f < es[i].file_block < next { es[i].file_block as int } else { next };
        lemma_extents_len(es, i + 1, f, n);
    }
}

proof fn lemma_child_len(v: Vol, t: Map<u64, Seq<u8>>, ch: treenode::Child, rel: int, level: int)
    requires
        0 <= rel,
    ensures
        mapping::child_map(v, t, ch, rel, level) matches Ok(Mapping::Run { blk, len }) ==> len > 0,
    decreases level,
{
    if ch.st == CELL_REFINED && level > 0 {
        if let Ok(b) = treenode::node_level_of(v, t, ch.addr, level - 1) {
            let c = treenode::cover(level - 1);
            treenode::lemma_cover_monotonic(level - 1, level - 1);
            lemma_child_len(v, t, treenode::node_at(b, rel / c), rel % c, level - 1);
        }
    }
}

/// The next edge lies past the block.
proof fn lemma_next_edge(fresh: Seq<(u64, u64)>, f: int, lim: int, k: int)
    requires
        f < lim,
    ensures
        f < mapping::next_edge(fresh, f, lim, k) <= lim,
    decreases fresh.len() - k,
{
    if k < fresh.len() {
        let a = fresh[k].0 as int;
        let b = fresh[k].0 + fresh[k].1;
        let l1 = if f < a < lim { a } else { lim };
        let l2 = if f < b < l1 { b } else { l1 };
        lemma_next_edge(fresh, f, l2, k + 1);
    }
}

/// The runs collected over a range tile it, and each is what the mapping says.
pub proof fn lemma_runs_tile(
    v: Vol,
    t: Map<u64, Seq<u8>>,
    m: Mp,
    fresh: Seq<(u64, u64)>,
    from: int,
    pos: int,
    end: int,
    acc: Seq<(u64, u64, u64, bool)>,
)
    requires
        0 <= from <= pos <= end <= u64::MAX,
        tiles(acc, from, pos),
        forall|i: int| 0 <= i < acc.len() ==> mapped_run(v, t, m, #[trigger] acc[i]),
    ensures
        mapping::runs_from(v, t, m, fresh, pos, end, acc) matches Ok(runs) ==> tiles(
            runs,
            from,
            end,
        ) && forall|i: int| 0 <= i < runs.len() ==> mapped_run(v, t, m, #[trigger] runs[i]),
    decreases end - pos,
{
    if pos < end {
        if let Ok(Mapping::Run { blk, len }) = mapping::map_of(v, t, m, pos) {
            lemma_run_len(v, t, m, pos);
            let lim = if len < end - pos { pos + len } else { end };
            lemma_next_edge(fresh, pos, lim, 0);
            let take = mapping::next_edge(fresh, pos, lim, 0) - pos;
            let r = (pos as u64, blk, take as u64, mapping::in_some(fresh, pos));
            let acc1 = acc.push(r);
            assert(acc1.drop_last() =~= acc);
            assert forall|i: int| 0 <= i < acc1.len() implies mapped_run(
                v,
                t,
                m,
                #[trigger] acc1[i],
            ) by {
                if i < acc.len() {
                    assert(acc1[i] == acc[i]);
                }
            }
            lemma_runs_tile(v, t, m, fresh, from, pos + take, end, acc1);
        }
    }
}

/// The runs handed out for a range, whatever the format, tile the range, and
/// each is what the mapping says afterwards: no hole is left.
pub proof fn law_ensured_range_is_mapped(v: Vol, p: Pool, ag: u32, m: Mp, f: int, n: int)
    requires
        0 <= f,
        0 <= n,
    ensures
        ({
            let (p1, m1, r) = extent::ensured(v, p, ag, m, f, n);
            r matches Ok(runs) ==> tiles(runs, f, f + n) && forall|i: int|
                0 <= i < runs.len() ==> mapped_run(v, p1.t, m1, #[trigger] runs[i])
        }),
{
    let (p1, m1, r) = extent::ensured(v, p, ag, m, f, n);
    if r is Ok {
        let w = Work { p, fresh: Seq::empty() };
        let none = Seq::<(u64, u64, u64, bool)>::empty();
        if m.format == FMT_TREE {
            lemma_tree_ensured(v, w, ag, m, f, n);
        } else {
            let m0 = if m.format == FMT_EXTENT {
                m
            } else {
                Mp { format: FMT_EXTENT, payload: inode::extents_image(Seq::empty()) }
            };
            let (w1, m2, r1) = extent::inline_fit(
                v,
                w,
                ag,
                m0,
                inode::extents_of(m0.payload),
                f,
                f + n,
            );
            if m2.format == FMT_EXTENT {
                lemma_runs_tile(v, w1.p.t, m2, w1.fresh, f, f, f + n, none);
            } else {
                lemma_tree_ensured(v, w1, ag, m2, f, n);
            }
        }
    }
}

proof fn lemma_tree_ensured(v: Vol, w: Work, ag: u32, m: Mp, f: int, n: int)
    requires
        0 <= f,
        0 <= n,
        f + n <= u64::MAX,
    ensures
        ({
            let (p1, m1, r) = extent::tree_ensured(v, w, ag, m, f, n);
            r matches Ok(runs) ==> tiles(runs, f, f + n) && forall|i: int|
                0 <= i < runs.len() ==> mapped_run(v, p1.t, m1, #[trigger] runs[i])
        }),
{
    if m.payload[0] <= treenode::MAX_LEVEL {
        let (p1, pl1, r1) = extent::grown_to(v, w.p, ag, m.payload, m.payload[0] as int, f + n);
        if r1 is Ok {
            let (w2, pl2, r2) = extent::root_fit(
                v,
                Work { p: p1, ..w },
                ag,
                pl1,
                pl1[0] as int,
                f,
                f + n,
            );
            let m2 = Mp { payload: pl2, ..m };
            lemma_runs_tile(
                v,
                w2.p.t,
                m2,
                w2.fresh,
                f,
                f,
                f + n,
                Seq::<(u64, u64, u64, bool)>::empty(),
            );
        }
    }
}

// --- inline extents -----------------------------------------------------------

/// An extent that is not empty and names blocks that there are.
pub open spec fn extent_ok(e: Extent) -> bool {
    e.blocks > 0 && e.file_block + e.blocks <= u64::MAX && e.blk + e.blocks <= u64::MAX + 1
}

/// Two extents map no file block both.
pub open spec fn disjoint(a: Extent, b: Extent) -> bool {
    a.file_block + a.blocks <= b.file_block || b.file_block + b.blocks <= a.file_block
}

/// Extents in order: none is empty, and no two map the same file block.
pub open spec fn apart(es: Seq<Extent>) -> bool {
    &&& forall|i: int| 0 <= i < es.len() ==> extent_ok(#[trigger] es[i])
    &&& forall|i: int, j: int|
        0 <= i < es.len() && 0 <= j < es.len() && i != j ==> disjoint(
            #[trigger] es[i],
            #[trigger] es[j],
        )
}

/// An extent maps file block `f` to address `a`.
pub open spec fn leads(e: Extent, f: int, a: int) -> bool {
    mapping::covers(e, f) && a == e.blk + (f - e.file_block)
}

/// The extents map file block `f` to address `a`.
pub open spec fn maps(es: Seq<Extent>, f: int, a: int) -> bool {
    exists|i: int| 0 <= i < es.len() && #[trigger] leads(es[i], f, a)
}

/// The extents map file block `f`.
pub open spec fn mapped(es: Seq<Extent>, f: int) -> bool {
    exists|a: int| #[trigger] maps(es, f, a)
}

/// What a lookup finds.
pub proof fn lemma_lookup(es: Seq<Extent>, i: int, f: int, next: int)
    requires
        apart(es),
        0 <= i,
        forall|k: int| 0 <= k < i && k < es.len() ==> !mapping::covers(#[trigger] es[k], f),
    ensures
        match mapping::extents_map(es, i, f, next) {
            Ok(Mapping::Run { blk, len: _ }) => maps(es, f, blk as int),
            Ok(Mapping::Hole(_)) => forall|a: int| !#[trigger] maps(es, f, a),
            Err(_) => false,
        },
    decreases es.len() - i,
{
    if i < es.len() {
        if mapping::covers(es[i], f) {
            assert(extent_ok(es[i]));
            assert(leads(es[i], f, es[i].blk + (f - es[i].file_block)));
        } else {
            let n = if f < es[i].file_block < next { es[i].file_block as int } else { next };
            lemma_lookup(es, i + 1, f, n);
        }
    } else {
        assert forall|a: int| !#[trigger] maps(es, f, a) by {
            if maps(es, f, a) {
                let k = choose|k: int| 0 <= k < es.len() && #[trigger] leads(es[k], f, a);
                assert(mapping::covers(es[k], f));
            }
        }
    }
}

/// A file block is mapped to one address.
pub proof fn lemma_maps_once(es: Seq<Extent>, f: int, a: int, b: int)
    requires
        apart(es),
        maps(es, f, a),
        maps(es, f, b),
    ensures
        a == b,
{
    let i = choose|i: int| 0 <= i < es.len() && #[trigger] leads(es[i], f, a);
    let j = choose|j: int| 0 <= j < es.len() && #[trigger] leads(es[j], f, b);
    if i != j {
        assert(disjoint(es[i], es[j]));
    }
}

/// One extent more, put anywhere.
proof fn lemma_insert_extent(es: Seq<Extent>, k: int, e: Extent)
    requires
        apart(es),
        0 <= k <= es.len(),
        extent_ok(e),
        forall|i: int| 0 <= i < es.len() ==> disjoint(#[trigger] es[i], e),
    ensures
        apart(es.insert(k, e)),
        forall|f: int, a: int| #[trigger]
            maps(es.insert(k, e), f, a) == (maps(es, f, a) || leads(e, f, a)),
{
    let s = es.insert(k, e);
    assert forall|i: int| 0 <= i < s.len() implies #[trigger] s[i] == if i < k {
        es[i]
    } else if i == k {
        e
    } else {
        es[i - 1]
    } by {}
    assert forall|f: int, a: int| #[trigger] maps(s, f, a) == (maps(es, f, a) || leads(e, f, a)) by {
        if maps(s, f, a) {
            let i = choose|i: int| 0 <= i < s.len() && #[trigger] leads(s[i], f, a);
            if i < k {
                assert(leads(es[i], f, a));
            } else if i > k {
                assert(leads(es[i - 1], f, a));
            }
        }
        if maps(es, f, a) {
            let i = choose|i: int| 0 <= i < es.len() && #[trigger] leads(es[i], f, a);
            let j = if i < k { i } else { i + 1 };
            assert(leads(s[j], f, a));
        }
        if leads(e, f, a) {
            assert(leads(s[k], f, a));
        }
    }
}

/// Where an extent goes among ordered ones.
proof fn lemma_put_sorted(es: Seq<Extent>, e: Extent) -> (k: int)
    ensures
        0 <= k <= es.len(),
        extent::put_sorted(es, e) == es.insert(k, e),
    decreases es.len(),
{
    if es.len() == 0 || es.last().file_block <= e.file_block {
        assert(es.push(e) =~= es.insert(es.len() as int, e));
        es.len() as int
    } else {
        let k = lemma_put_sorted(es.drop_last(), e);
        assert(es.drop_last().insert(k, e).push(es.last()) =~= es.insert(k, e));
        k
    }
}

/// Sorting extents changes nothing that they map.
#[verifier::rlimit(40)]
proof fn lemma_sorted(es: Seq<Extent>)
    requires
        apart(es),
    ensures
        apart(extent::sorted(es)),
        extent::sorted(es).len() == es.len(),
        forall|f: int, a: int| #[trigger] maps(extent::sorted(es), f, a) == maps(es, f, a),
        forall|e: Extent|
            extent_ok(e) && (forall|i: int| 0 <= i < es.len() ==> disjoint(#[trigger] es[i], e))
                ==> forall|i: int|
                0 <= i < es.len() ==> disjoint(#[trigger] extent::sorted(es)[i], e),
    decreases es.len(),
{
    if es.len() > 0 {
        let head = es.drop_last();
        let e = es.last();
        assert(apart(head)) by {
            assert forall|i: int, j: int|
                0 <= i < head.len() && 0 <= j < head.len() && i != j implies disjoint(
                #[trigger] head[i],
                #[trigger] head[j],
            ) by {
                assert(head[i] == es[i] && head[j] == es[j]);
            }
            assert forall|i: int| 0 <= i < head.len() implies extent_ok(#[trigger] head[i]) by {
                assert(head[i] == es[i]);
            }
        }
        lemma_sorted(head);
        let s = extent::sorted(head);
        let k = lemma_put_sorted(s, e);
        assert(extent_ok(es[es.len() - 1]));
        assert forall|i: int| 0 <= i < head.len() implies disjoint(#[trigger] head[i], e) by {
            assert(head[i] == es[i]);
            assert(disjoint(es[i], es[es.len() - 1]));
        }
        lemma_insert_extent(s, k, e);
        lemma_insert_extent(head, head.len() as int, e);
        assert(head.insert(head.len() as int, e) =~= es);
        let r = extent::sorted(es);
        assert(r == s.insert(k, e));
        assert forall|x: Extent|
            extent_ok(x) && (forall|i: int|
                0 <= i < es.len() ==> disjoint(#[trigger] es[i], x)) implies forall|i: int|
            0 <= i < es.len() ==> disjoint(#[trigger] r[i], x) by {
            assert forall|i: int| 0 <= i < head.len() implies disjoint(#[trigger] head[i], x) by {
                assert(head[i] == es[i]);
            }
            assert(disjoint(es[es.len() - 1], x));
            assert forall|i: int| 0 <= i < es.len() implies disjoint(#[trigger] r[i], x) by {
                if i < k {
                    assert(r[i] == s[i]);
                } else if i > k {
                    assert(r[i] == s[i - 1]);
                }
            }
        }
    }
}

// --- growing ------------------------------------------------------------------

/// The file's blocks are in use, or in another group.
pub open spec fn owns(v: Vol, t: Map<u64, Seq<u8>>, hdr: AgHeader, es: Seq<Extent>) -> bool {
    forall|f: int, a: int| #[trigger] maps(es, f, a) ==> spares::kept_safe(v, t, hdr, a as u64)
}

/// No two file blocks are mapped to the same address.
pub open spec fn one_each(es: Seq<Extent>) -> bool {
    forall|f: int, g: int, a: int| #[trigger] maps(es, f, a) && #[trigger] maps(es, g, a) ==> f == g
}

/// A state from which a file grows: extents in order that own their blocks,
/// and sound tables in the group.
pub open spec fn grows_from(v: Vol, p: Pool, ag: u32, hdr: AgHeader, es: Seq<Extent>) -> bool {
    &&& fs::header_of(v, p.t, ag) == Ok::<AgHeader, FsError>(hdr)
    &&& hdr.ag_num == ag
    &&& tables::sound(v, p.t, hdr)
    &&& apart(es)
    &&& one_each(es)
    &&& owns(v, p.t, hdr, es)
}

/// What growing keeps: every mapped block is mapped as before and holds what
/// it held, and a block that is new was free.
pub open spec fn grew(v: Vol, t: Map<u64, Seq<u8>>, es: Seq<Extent>, t1: Map<u64, Seq<u8>>, es1: Seq<
    Extent,
>, hdr: AgHeader) -> bool {
    &&& forall|x: u64|
        spares::kept_safe(v, t, hdr, x) ==> #[trigger] vol::rd(v, t1, x) == vol::rd(v, t, x)
    &&& forall|x: u64|
        spares::kept_safe(v, t, hdr, x) ==> #[trigger] spares::kept_safe(v, t1, hdr, x)
    &&& forall|f: int, a: int| maps(es, f, a) ==> #[trigger] maps(es1, f, a)
    &&& forall|f: int, a: int| #[trigger]
        maps(es1, f, a) && !maps(es, f, a) ==> !spares::kept_safe(v, t, hdr, a as u64)
}

/// Growing in two steps.
pub proof fn lemma_grew_more(
    v: Vol,
    t: Map<u64, Seq<u8>>,
    es: Seq<Extent>,
    t1: Map<u64, Seq<u8>>,
    es1: Seq<Extent>,
    t2: Map<u64, Seq<u8>>,
    es2: Seq<Extent>,
    hdr: AgHeader,
)
    requires
        grew(v, t, es, t1, es1, hdr),
        grew(v, t1, es1, t2, es2, hdr),
    ensures
        grew(v, t, es, t2, es2, hdr),
{
    assert forall|x: u64| spares::kept_safe(v, t, hdr, x) implies #[trigger] vol::rd(v, t2, x)
        == vol::rd(v, t, x) by {
        assert(spares::kept_safe(v, t1, hdr, x));
        assert(vol::rd(v, t1, x) == vol::rd(v, t, x));
    }
    assert forall|x: u64| spares::kept_safe(v, t, hdr, x) implies #[trigger] spares::kept_safe(
        v,
        t2,
        hdr,
        x,
    ) by {
        assert(spares::kept_safe(v, t1, hdr, x));
    }
    assert forall|f: int, a: int| maps(es, f, a) implies #[trigger] maps(es2, f, a) by {
        assert(maps(es1, f, a));
    }
    assert forall|f: int, a: int| #[trigger]
        maps(es2, f, a) && !maps(es, f, a) implies !spares::kept_safe(v, t, hdr, a as u64) by {
        if maps(es1, f, a) {
        } else {
            assert(!spares::kept_safe(v, t1, hdr, a as u64));
            if spares::kept_safe(v, t, hdr, a as u64) {
                assert(spares::kept_safe(v, t1, hdr, a as u64));
            }
        }
    }
}

/// What an allocation does to the blocks of a file.
#[verifier::rlimit(40)]
pub proof fn lemma_alloc_grows(v: Vol, p: Pool, ag: u32, hdr: AgHeader, n: int) -> (hdr1: AgHeader)
    requires
        fs::header_of(v, p.t, ag) == Ok::<AgHeader, FsError>(hdr),
        hdr.ag_num == ag,
        tables::sound(v, p.t, hdr),
        1 <= n,
        allocator::allocated(v, p, ag, n).1 is Ok,
    ensures
        ({
            let (p1, r1) = allocator::allocated(v, p, ag, n);
            let blk = r1->Ok_0;
            &&& fs::header_of(v, p1.t, ag) == Ok::<AgHeader, FsError>(hdr1)
            &&& tables::same_place(hdr, hdr1)
            &&& tables::sound(v, p1.t, hdr1)
            &&& n <= u32::MAX
            &&& blk + n <= u64::MAX + 1
            &&& forall|x: u64|
                spares::kept_safe(v, p.t, hdr, x) ==> #[trigger] vol::rd(v, p1.t, x) == vol::rd(
                    v,
                    p.t,
                    x,
                )
            &&& forall|x: u64|
                spares::kept_safe(v, p.t, hdr, x) ==> #[trigger] spares::kept_safe(
                    v,
                    p1.t,
                    hdr,
                    x,
                )
            &&& forall|k: int|
                0 <= k < n ==> {
                    &&& !spares::kept_safe(v, p.t, hdr, (#[trigger] (blk + k)) as u64)
                    &&& spares::kept_safe(v, p1.t, hdr, (blk + k) as u64)
                }
        }),
{
    let (p1, r1) = allocator::allocated(v, p, ag, n);
    let blk = r1->Ok_0;
    let b = fmt::addr_local(blk) as int;
    allocator_laws::law_allocated_blocks_were_free(v, p, ag, n);
    allocator_laws::law_allocation_marks_its_blocks(v, p, ag, hdr, n);
    spares::law_allocation_spares_used_blocks(v, p, ag, hdr, n);
    extent::lemma_allocated_fits(v, p, ag, n);
    let hdr1 = fs::header_of(v, p1.t, ag)->Ok_0;
    fmt::lemma_ceil_div(hdr.length as int, 256);
    fmt::law_address_halves(0, 0, blk);
    allocator_laws::lemma_granted(n);
    assert(tables::block_count(hdr) <= 0x1_0000_0000);
    assert forall|x: u64| spares::kept_safe(v, p.t, hdr, x) implies #[trigger] spares::kept_safe(
        v,
        p1.t,
        hdr,
        x,
    ) by {
        let l = fmt::addr_local(x) as int;
        if fmt::addr_ag(x) == hdr.ag_num {
            assert(allocator_laws::taken_at(
                v,
                p.t,
                p1.t,
                hdr,
                b,
                b + allocator_laws::granted(n),
                l,
            ));
        }
    }
    assert forall|k: int| 0 <= k < n implies {
        &&& !spares::kept_safe(v, p.t, hdr, (#[trigger] (blk + k)) as u64)
        &&& spares::kept_safe(v, p1.t, hdr, (blk + k) as u64)
    } by {
        let x = (blk + k) as u64;
        assert(blk == ag * 0x1_0000_0000 + b);
        assert(blk + k == ag * 0x1_0000_0000 + (b + k));
        assert(b + k < 0x1_0000_0000);
        assert(fmt::addr_ag(x) == ag && fmt::addr_local(x) == b + k);
        assert(tables::block_state(v, p.t, hdr, b + k) == Ok::<u8, FsError>(CELL_FREE));
        assert(allocator_laws::taken_at(
            v,
            p.t,
            p1.t,
            hdr,
            b,
            b + allocator_laws::granted(n),
            b + k,
        ));
    }
    hdr1
}

/// Which extent maps a block.
pub proof fn lemma_covering(es: Seq<Extent>, f: int, i: int)
    requires
        0 <= i,
    ensures
        match extent::covering(es, f, i) {
            Some(e) => mapping::covers(e, f) && es.contains(e),
            None => forall|k: int| i <= k < es.len() ==> !mapping::covers(#[trigger] es[k], f),
        },
    decreases es.len() - i,
{
    if i < es.len() && !mapping::covers(es[i], f) {
        lemma_covering(es, f, i + 1);
    }
}

/// No extent begins before the next mapped block.
pub proof fn lemma_next_mapped(es: Seq<Extent>, f: int, end: int, i: int)
    requires
        0 <= i,
        f < end,
    ensures
        f < extent::next_mapped(es, f, end, i) <= end,
        forall|k: int|
            i <= k < es.len() ==> !(f < (#[trigger] es[k]).file_block < extent::next_mapped(
                es,
                f,
                end,
                i,
            )),
    decreases es.len() - i,
{
    if i < es.len() {
        let e = if f < es[i].file_block < end { es[i].file_block as int } else { end };
        lemma_next_mapped(es, f, e, i + 1);
    }
}

/// Where an extent that a run adjoins stands.
proof fn lemma_adjoining(es: Seq<Extent>, f: int, blk: u64, i: int)
    requires
        0 <= i,
    ensures
        extent::adjoining(es, f, blk, i) matches Some(k) ==> i <= k < es.len()
            && es[k].file_block + es[k].blocks == f && es[k].blk + es[k].blocks == blk,
    decreases es.len() - i,
{
    if i < es.len() {
        lemma_adjoining(es, f, blk, i + 1);
    }
}

/// The extents with a new run over a free range.
#[verifier::rlimit(40)]
pub proof fn lemma_with_run(es: Seq<Extent>, f: int, blk: u64, n: int)
    requires
        apart(es),
        0 <= f,
        1 <= n <= u32::MAX,
        f + n <= u64::MAX,
        blk + n <= u64::MAX + 1,
        forall|k: int|
            0 <= k < es.len() ==> (#[trigger] es[k]).file_block + es[k].blocks <= f
                || es[k].file_block >= f + n,
    ensures
        extent::with_run(es, f, blk, n) matches Ok(es1) ==> apart(es1) && forall|g: int, a: int|
            #[trigger]
            maps(es1, g, a) == (maps(es, g, a) || (f <= g < f + n && a == blk + (g - f))),
{
    lemma_adjoining(es, f, blk, 0);
    let run = Extent { file_block: f as u64, blk, blocks: n as u32 };
    match extent::adjoining(es, f, blk, 0) {
        None => {
            lemma_insert_extent(es, es.len() as int, run);
            assert(es.insert(es.len() as int, run) =~= es.push(run));
            let es1 = es.push(run);
            assert forall|g: int, a: int| #[trigger]
                maps(es1, g, a) == (maps(es, g, a) || (f <= g < f + n && a == blk + (g - f))) by {
                assert(leads(run, g, a) == (f <= g < f + n && a == blk + (g - f)));
            }
        },
        Some(i) => {
            if es[i].blocks + n <= u32::MAX {
                let e = Extent { blocks: (es[i].blocks + n) as u32, ..es[i] };
                let es1 = es.update(i, e);
                assert(extent_ok(es[i]));
                assert forall|j: int, k: int|
                    0 <= j < es1.len() && 0 <= k < es1.len() && j != k implies disjoint(
                    #[trigger] es1[j],
                    #[trigger] es1[k],
                ) by {
                    assert(disjoint(es[j], es[k]));
                    assert(es[j].blocks > 0 && es[k].blocks > 0) by {
                        assert(extent_ok(es[j]) && extent_ok(es[k]));
                    }
                }
                assert forall|j: int| 0 <= j < es1.len() implies extent_ok(#[trigger] es1[j]) by {
                    assert(extent_ok(es[j]));
                }
                assert forall|g: int, a: int| #[trigger]
                    maps(es1, g, a) == (maps(es, g, a) || (f <= g < f + n && a == blk + (g
                        - f))) by {
                    if maps(es1, g, a) {
                        let j = choose|j: int|
                            0 <= j < es1.len() && #[trigger] leads(es1[j], g, a);
                        if j != i || g < f {
                            assert(leads(es[j], g, a));
                        }
                    }
                    if maps(es, g, a) {
                        let j = choose|j: int| 0 <= j < es.len() && #[trigger] leads(es[j], g, a);
                        assert(leads(es1[j], g, a));
                    }
                    if f <= g < f + n && a == blk + (g - f) {
                        assert(leads(es1[i], g, a));
                    }
                }
            }
        },
    }
}

/// One step of growing with inline extents.
#[verifier::rlimit(40)]
pub proof fn lemma_inline_step(
    v: Vol,
    w: Work,
    ag: u32,
    hdr: AgHeader,
    es: Seq<Extent>,
    pos: int,
    end: int,
) -> (hdr1: AgHeader)
    requires
        grows_from(v, w.p, ag, hdr, es),
        0 <= pos < end <= u64::MAX,
    ensures
        ({
            let (w1, es1, r1) = extent::inline_step(v, w, ag, es, pos, end);
            r1 matches Ok(Some(next)) ==> {
                &&& pos < next <= end
                &&& tables::same_place(hdr, hdr1)
                &&& grows_from(v, w1.p, ag, hdr1, es1)
                &&& grew(v, w.p.t, es, w1.p.t, es1, hdr)
                &&& forall|g: int| pos <= g < next ==> #[trigger] mapped(es1, g)
            }
        }),
{
    reveal(extent::inline_step);
    lemma_covering(es, pos, 0);
    match extent::covering(es, pos, 0) {
        Some(e) => {
            let far = e.file_block + e.blocks;
            let next = if far < end { far } else { end };
            let k = choose|k: int| 0 <= k < es.len() && es[k] == e;
            assert forall|g: int| pos <= g < next implies #[trigger] mapped(es, g) by {
                let a = e.blk + (g - e.file_block);
                assert(leads(es[k], g, a));
                assert(maps(es, g, a));
            }
            hdr
        },
        None => {
            let next = extent::next_mapped(es, pos, end, 0);
            lemma_next_mapped(es, pos, end, 0);
            let n = next - pos;
            let (p1, r1) = allocator::allocated(v, w.p, ag, n);
            if r1 is Ok {
                let blk = r1->Ok_0;
                let hdr1 = lemma_alloc_grows(v, w.p, ag, hdr, n);
                assert forall|k: int| 0 <= k < es.len() implies (#[trigger] es[k]).file_block
                    + es[k].blocks <= pos || es[k].file_block >= pos + n by {
                    assert(!mapping::covers(es[k], pos));
                    assert(extent_ok(es[k]));
                }
                lemma_with_run(es, pos, blk, n);
                if let Ok(es1) = extent::with_run(es, pos, blk, n) {
                    lemma_step_grew(v, w.p, p1, hdr, hdr1, es, es1, pos, blk, n);
                    assert forall|g: int| pos <= g < next implies #[trigger] mapped(es1, g) by {
                        assert(maps(es1, g, blk + (g - pos)));
                    }
                }
                hdr1
            } else {
                hdr
            }
        },
    }
}

/// The new run belongs to the file and was free.
proof fn lemma_step_grew(
    v: Vol,
    p: Pool,
    p1: Pool,
    hdr: AgHeader,
    hdr1: AgHeader,
    es: Seq<Extent>,
    es1: Seq<Extent>,
    pos: int,
    blk: u64,
    n: int,
)
    requires
        owns(v, p.t, hdr, es),
        one_each(es),
        blk + n <= u64::MAX + 1,
        tables::same_place(hdr, hdr1),
        forall|g: int, a: int| #[trigger]
            maps(es1, g, a) == (maps(es, g, a) || (pos <= g < pos + n && a == blk + (g - pos))),
        forall|x: u64|
            spares::kept_safe(v, p.t, hdr, x) ==> #[trigger] vol::rd(v, p1.t, x) == vol::rd(
                v,
                p.t,
                x,
            ),
        forall|x: u64|
            spares::kept_safe(v, p.t, hdr, x) ==> #[trigger] spares::kept_safe(v, p1.t, hdr, x),
        forall|k: int|
            0 <= k < n ==> {
                &&& !spares::kept_safe(v, p.t, hdr, (#[trigger] (blk + k)) as u64)
                &&& spares::kept_safe(v, p1.t, hdr, (blk + k) as u64)
            },
    ensures
        grew(v, p.t, es, p1.t, es1, hdr),
        owns(v, p1.t, hdr1, es1),
        one_each(es1),
{
    assert forall|f: int, g: int, a: int| #[trigger] maps(es1, f, a) && #[trigger]
        maps(es1, g, a) implies f == g by {
        if maps(es, f, a) {
            assert(spares::kept_safe(v, p.t, hdr, a as u64));
            if !maps(es, g, a) {
                assert(a == blk + (g - pos));
            }
        } else {
            assert(a == blk + (f - pos));
            if maps(es, g, a) {
                assert(spares::kept_safe(v, p.t, hdr, a as u64));
            }
        }
    }
    assert forall|f: int, a: int| #[trigger] maps(es1, f, a) && !maps(es, f, a) implies !(
    spares::kept_safe(v, p.t, hdr, a as u64)) by {
        assert(a == blk + (f - pos));
    }
    assert forall|f: int, a: int| #[trigger] maps(es1, f, a) implies spares::kept_safe(
        v,
        p1.t,
        hdr1,
        a as u64,
    ) by {
        tables::lemma_state_place(v, p1.t, hdr, hdr1, fmt::addr_local(a as u64) as int);
        if maps(es, f, a) {
            assert(spares::kept_safe(v, p.t, hdr, a as u64));
            assert(spares::kept_safe(v, p1.t, hdr, a as u64));
        } else {
            assert(a == blk + (f - pos));
        }
    }
}

/// Headers that place the tables alike see the same growth.
pub proof fn lemma_grew_place(
    v: Vol,
    t: Map<u64, Seq<u8>>,
    es: Seq<Extent>,
    t1: Map<u64, Seq<u8>>,
    es1: Seq<Extent>,
    a: AgHeader,
    b: AgHeader,
)
    requires
        tables::same_place(a, b),
        grew(v, t, es, t1, es1, a),
    ensures
        grew(v, t, es, t1, es1, b),
{
    assert forall|x: u64| {
        &&& #[trigger] spares::kept_safe(v, t, b, x) == spares::kept_safe(v, t, a, x)
        &&& spares::kept_safe(v, t1, b, x) == spares::kept_safe(v, t1, a, x)
    } by {
        tables::lemma_state_place(v, t, a, b, fmt::addr_local(x) as int);
        tables::lemma_state_place(v, t1, a, b, fmt::addr_local(x) as int);
    }
    assert forall|x: u64| spares::kept_safe(v, t, b, x) implies #[trigger] spares::kept_safe(
        v,
        t1,
        b,
        x,
    ) by {
        assert(spares::kept_safe(v, t, b, x) == spares::kept_safe(v, t, a, x));
        assert(spares::kept_safe(v, t1, a, x));
    }
    assert forall|x: u64| spares::kept_safe(v, t, b, x) implies #[trigger] vol::rd(v, t1, x)
        == vol::rd(v, t, x) by {
        assert(spares::kept_safe(v, t, b, x) == spares::kept_safe(v, t, a, x));
    }
    assert forall|f: int, x: int| #[trigger] maps(es1, f, x) && !maps(es, f, x) implies !(
    spares::kept_safe(v, t, b, x as u64)) by {
        assert(spares::kept_safe(v, t, b, x as u64) == spares::kept_safe(v, t, a, x as u64));
    }
}

/// Growing with inline extents that stay inline.
#[verifier::rlimit(40)]
proof fn lemma_inline_fit(
    v: Vol,
    w: Work,
    ag: u32,
    hdr: AgHeader,
    m: Mp,
    es: Seq<Extent>,
    pos: int,
    end: int,
) -> (r: (AgHeader, Seq<Extent>))
    requires
        grows_from(v, w.p, ag, hdr, es),
        0 <= pos <= end <= u64::MAX,
        m.format == FMT_EXTENT,
    ensures
        ({
            let (w1, m1, r1) = extent::inline_fit(v, w, ag, m, es, pos, end);
            (r1 is Ok && m1.format == FMT_EXTENT) ==> {
                &&& tables::same_place(hdr, r.0)
                &&& grows_from(v, w1.p, ag, r.0, r.1)
                &&& inode::extents_of(m1.payload) == r.1
                &&& grew(v, w.p.t, es, w1.p.t, r.1, hdr)
                &&& forall|g: int| pos <= g < end ==> #[trigger] mapped(r.1, g)
            }
        }),
    decreases end - pos,
{
    if pos >= end {
        lemma_sorted(es);
        let s = extent::sorted(es);
        assert(one_each(s)) by {
            assert forall|f: int, g: int, a: int| #[trigger] maps(s, f, a) && #[trigger]
                maps(s, g, a) implies f == g by {
                assert(maps(es, f, a) && maps(es, g, a));
            }
        }
        if es.len() <= MAX_INLINE_EXTENTS {
            assert forall|i: int| 0 <= i < s.len() implies (#[trigger] s[i]).blocks > 0 by {
                assert(extent_ok(s[i]));
            }
            inode::law_extents_round_trip(s);
        } else {
            lemma_treed_format(v, w.p, ag, m, es);
        }
        (hdr, s)
    } else {
        let hdr1 = lemma_inline_step(v, w, ag, hdr, es, pos, end);
        let (w1, es1, r1) = extent::inline_step(v, w, ag, es, pos, end);
        if r1 matches Ok(Some(_)) {
            let next = r1->Ok_0->Some_0;
            let (hdr2, es2) = lemma_inline_fit(v, w1, ag, hdr1, m, es1, next, end);
            let (w2, m2, r2) = extent::inline_fit(v, w1, ag, m, es1, next, end);
            if r2 is Ok && m2.format == FMT_EXTENT {
                lemma_grew_place(v, w1.p.t, es1, w2.p.t, es2, hdr1, hdr);
                lemma_grew_more(v, w.p.t, es, w1.p.t, es1, w2.p.t, es2, hdr);
                assert forall|g: int| pos <= g < end implies #[trigger] mapped(es2, g) by {
                    if g < next {
                        assert(mapped(es1, g));
                        let a = choose|a: int| #[trigger] maps(es1, g, a);
                        assert(maps(es2, g, a));
                    }
                }
            }
            (hdr2, es2)
        } else {
            lemma_treed_format(v, w1.p, ag, m, es);
            (hdr1, es1)
        }
    }
}

/// A file that became a tree is not inline.
pub proof fn lemma_treed_format(v: Vol, p: Pool, ag: u32, m: Mp, es: Seq<Extent>)
    ensures
        ({
            let (p1, m1, r1) = extent::treed(v, p, ag, m, es);
            r1 is Ok ==> m1.format == FMT_TREE
        }),
{
    reveal(extent::treed);
}

/// A file with inline extents that grows, and stays inline, keeps every block
/// that it had, where it was and with what it held; every block of the range
/// is mapped; and blocks that are new to the file were free. Afterwards the
/// file owns its blocks and the tables are sound again.
pub proof fn law_growing_keeps_the_file(
    v: Vol,
    p: Pool,
    ag: u32,
    hdr: AgHeader,
    m: Mp,
    f: int,
    n: int,
) -> (hdr1: AgHeader)
    requires
        m.format == FMT_EXTENT,
        grows_from(v, p, ag, hdr, inode::extents_of(m.payload)),
        0 <= f,
        0 <= n,
        extent::ensured(v, p, ag, m, f, n).2 is Ok,
        extent::ensured(v, p, ag, m, f, n).1.format == FMT_EXTENT,
    ensures
        ({
            let (p1, m1, _) = extent::ensured(v, p, ag, m, f, n);
            let es = inode::extents_of(m.payload);
            let es1 = inode::extents_of(m1.payload);
            &&& tables::same_place(hdr, hdr1)
            &&& grows_from(v, p1, ag, hdr1, es1)
            &&& grew(v, p.t, es, p1.t, es1, hdr)
            &&& forall|g: int| f <= g < f + n ==> #[trigger] mapped(es1, g)
        }),
{
    let w = Work { p, fresh: Seq::empty() };
    let es = inode::extents_of(m.payload);
    let (w1, m1, r1) = extent::inline_fit(v, w, ag, m, es, f, f + n);
    let (hdr1, es1) = lemma_inline_fit(v, w, ag, hdr, m, es, f, f + n);
    hdr1
}

// --- writing the file's blocks ------------------------------------------------

/// A state from which a file grows stays one when a block of the file, or
/// another block in use, is written.
pub proof fn lemma_data_written(
    v: Vol,
    p: Pool,
    ag: u32,
    hdr: AgHeader,
    es: Seq<Extent>,
    x: u64,
    b: Seq<u8>,
)
    requires
        grows_from(v, p, ag, hdr, es),
        spares::kept_safe(v, p.t, hdr, x),
        b.len() == v.bs,
    ensures
        grows_from(v, Pool { t: p.t.insert(x, b), ..p }, ag, hdr, es),
{
    let t = p.t;
    let t1 = t.insert(x, b);
    tables::lemma_foreign_write(v, t, hdr, x, b);
    assert forall|f: int, a: int| #[trigger] maps(es, f, a) implies spares::kept_safe(
        v,
        t1,
        hdr,
        a as u64,
    ) by {
        assert(spares::kept_safe(v, t, hdr, a as u64));
        let l = fmt::addr_local(a as u64) as int;
        if l < tables::block_count(hdr) {
            assert(tables::block_state(v, t1, hdr, l) == tables::block_state(v, t, hdr, l));
        }
    }
    assert(fs::header_of(v, t1, ag) == fs::header_of(v, t, ag));
}

} // verus!
