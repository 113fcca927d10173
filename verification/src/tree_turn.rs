//! Files that turn from inline extents into an extent tree: the tree maps what the
//! extents mapped.

use crate::allocator::Pool;
use crate::error::FsError;
use crate::extent::{Par, Work};
use crate::fmt::{Extent, CELL_FREE, CELL_FULL, CELL_REFINED, FMT_EXTENT, FMT_TREE, ROOT_FANOUT};
use crate::header::AgHeader;
use crate::mapping::Mp;
use crate::tree_growth;
use crate::treenode::{Child, MAX_LEVEL, TREE_LIMIT};
use crate::vol::Vol;
use vstd::prelude::*;

use crate::allocator;
use crate::extent;
use crate::inode;
use crate::mapping;
use crate::mapping_laws;
use crate::spares;
use crate::tables;
use crate::tree_laws;
use crate::treenode;
use crate::vol;

verus! {

// --- recording a run ----------------------------------------------------------

/// The blocks of a run are in use.
#[verifier::opaque]
pub open spec fn in_use(v: Vol, t: Map<u64, Seq<u8>>, hdr: AgHeader, blk: u64, n: int) -> bool {
    tree_growth::run_safe(v, t, hdr, blk, n)
}

/// A run in use stays in use.
proof fn lemma_run_stays(
    v: Vol,
    t: Map<u64, Seq<u8>>,
    hdr: AgHeader,
    t1: Map<u64, Seq<u8>>,
    hdr1: AgHeader,
    blk: u64,
    n: int,
)
    requires
        in_use(v, t, hdr, blk, n),
        tree_growth::stays(v, t, hdr, t1, hdr1),
    ensures
        in_use(v, t1, hdr1, blk, n),
{
    reveal(in_use);
    assert forall|x: u64| blk <= x < blk + n implies #[trigger] spares::kept_safe(v, t1, hdr1, x) by {
        assert(spares::kept_safe(v, t, hdr, x));
    }
}

/// Part of a run in use is in use.
proof fn lemma_run_part(
    v: Vol,
    t: Map<u64, Seq<u8>>,
    hdr: AgHeader,
    blk: int,
    n: int,
    from: int,
    to: int,
)
    requires
        0 <= blk <= u64::MAX,
        in_use(v, t, hdr, blk as u64, n),
        0 <= from < to <= n,
    ensures
        blk + from <= u64::MAX,
        in_use(v, t, hdr, (blk + from) as u64, to - from),
{
    reveal(in_use);
}

/// Two runs in a row.
proof fn lemma_run_joined(v: Vol, t: Map<u64, Seq<u8>>, hdr: AgHeader, blk: u64, n: int, m: int)
    requires
        tree_growth::run_safe(v, t, hdr, blk, n),
        0 <= n,
        1 <= m,
        blk + n <= u64::MAX,
        in_use(v, t, hdr, (blk + n) as u64, m),
    ensures
        in_use(v, t, hdr, blk, n + m),
{
    reveal(in_use);
    assert forall|x: u64| blk <= x < blk + n + m implies #[trigger] spares::kept_safe(v, t, hdr, x) by {
        if x < blk + n {
            assert(spares::kept_safe(v, t, hdr, x));
        }
    }
}

/// Child `i` of `par`, which was `ch`, is `ch1`: from `lo` to `hi` it is mapped to a
/// run, counted as from offset 0 on at `base`, and nothing else has changed.
#[verifier::opaque]
pub open spec fn recorded(
    v: Vol,
    ag: u32,
    t: Map<u64, Seq<u8>>,
    hdr: AgHeader,
    par: Par,
    ch: Child,
    t1: Map<u64, Seq<u8>>,
    hdr1: AgHeader,
    par1: Par,
    ch1: Child,
    i: int,
    level: int,
    lo: int,
    hi: int,
    base: int,
) -> bool {
    &&& tree_laws::settled(v, t1, ag, hdr1)
    &&& tree_growth::holds(v, t1, hdr1, par1, level)
    &&& tree_growth::child_set(v, t, par, t1, par1, i, ch1)
    &&& tree_growth::frame(v, t, hdr, t1, hdr1, ch, level, tree_growth::own(par))
    &&& tree_growth::grew(v, t, hdr, ch, t1, hdr1, ch1, level, lo, hi, Some(base))
}

/// A child set to a run.
#[verifier::rlimit(40)]
proof fn lemma_set_run(
    v: Vol,
    p: Pool,
    ag: u32,
    hdr: AgHeader,
    par: Par,
    i: int,
    level: int,
    ch: Child,
    new: Child,
    lo: int,
)
    requires
        v.bs >= 2048,
        tree_laws::settled(v, p.t, ag, hdr),
        tree_growth::holds(v, p.t, hdr, par, level),
        0 <= i < tree_growth::width(par),
        ch.st == CELL_FREE && lo == 0 || ch.st == CELL_FULL && lo == ch.blocks && new.addr
            == ch.addr,
        new.st == CELL_FULL,
        lo <= new.blocks,
        in_use(v, p.t, hdr, new.addr, new.blocks as int),
    ensures
        ({
            let (t1, par1, r1) = extent::par_set(v, p.t, par, i, new);
            r1 is Ok && recorded(
                v,
                ag,
                p.t,
                hdr,
                par,
                ch,
                t1,
                hdr,
                par1,
                new,
                i,
                level,
                lo,
                new.blocks as int,
                new.addr as int,
            )
        }),
{
    let t = p.t;
    reveal(recorded);
    tree_growth::lemma_par_set(v, t, ag, hdr, par, level, i, new);
    let (t1, par1, _) = extent::par_set(v, t, par, i, new);
    lemma_run_stays(v, t, hdr, t1, hdr, new.addr, new.blocks as int);
    assert(tree_growth::tidy(v, t1, hdr, new, level)) by {
        reveal(in_use);
    }
    assert forall|rel: int| 0 <= rel < treenode::cover(level) implies #[trigger] tree_growth::grew_at(
        v,
        t,
        hdr,
        ch,
        t1,
        new,
        level,
        lo,
        new.blocks as int,
        Some(new.addr as int),
        rel,
    ) by {
        reveal(tree_growth::grew_at);
    }
}

/// A run recorded in a hole, or behind a run that it continues.
#[verifier::rlimit(60)]
#[verifier::spinoff_prover]
proof fn lemma_insert_set(
    v: Vol,
    p: Pool,
    ag: u32,
    hdr: AgHeader,
    par: Par,
    i: int,
    level: int,
    ch: Child,
    cs: int,
    f: int,
    blk: int,
    len: int,
) -> (r: (AgHeader, Child))
    requires
        v.bs >= 2048,
        tree_laws::settled(v, p.t, ag, hdr),
        tree_growth::holds(v, p.t, hdr, par, level),
        0 <= i < tree_growth::width(par),
        0 <= level <= MAX_LEVEL,
        extent::par_get(v, p.t, par, i) == Ok::<Child, FsError>(ch),
        tree_growth::tidy(v, p.t, hdr, ch, level),
        tree_growth::own(par) is Some ==> !tree_growth::below(
            v,
            p.t,
            ch,
            level,
            tree_growth::own(par)->Some_0,
        ),
        cs <= f,
        1 <= len <= u32::MAX,
        f + len <= cs + treenode::cover(level),
        0 <= blk <= u64::MAX,
        in_use(v, p.t, hdr, blk as u64, len),
        ch.st == CELL_FREE && f == cs || ch.st == CELL_FULL && f == cs + ch.blocks && blk == ch.addr
            + ch.blocks,
        extent::child_insert(v, p, ag, par, i, level, cs, f, blk, len).2 is Ok,
    ensures
        ({
            let (p1, par1, _) = extent::child_insert(v, p, ag, par, i, level, cs, f, blk, len);
            recorded(
                v,
                ag,
                p.t,
                hdr,
                par,
                ch,
                p1.t,
                r.0,
                par1,
                r.1,
                i,
                level,
                f - cs,
                f + len - cs,
                blk - (f - cs),
            )
        }),
{
    let t = p.t;
    if ch.st == CELL_FREE {
        let new = Child { st: CELL_FULL, blocks: len as u32, addr: blk as u64 };
        lemma_set_run(v, p, ag, hdr, par, i, level, ch, new, 0);
        (hdr, new)
    } else {
        let new = Child { st: CELL_FULL, blocks: (ch.blocks + len) as u32, addr: ch.addr };
        lemma_run_joined(v, t, hdr, ch.addr, ch.blocks as int, len);
        lemma_set_run(v, p, ag, hdr, par, i, level, ch, new, f - cs);
        (hdr, new)
    }
}

/// Child `i` of `par`, which was `ch`, is replaced by the node `new` of `par2`.
#[verifier::opaque]
spec fn opened(
    v: Vol,
    t: Map<u64, Seq<u8>>,
    hdr: AgHeader,
    par: Par,
    ch: Child,
    t2: Map<u64, Seq<u8>>,
    hdr2: AgHeader,
    par2: Par,
    new: Child,
    i: int,
    level: int,
    lo: int,
    base: int,
) -> bool {
    &&& tree_growth::holds(v, t, hdr, par, level)
    &&& 0 <= i < tree_growth::width(par)
    &&& ch.st == CELL_FREE || ch.st == CELL_FULL
    &&& tree_growth::holds(v, t2, hdr2, par2, level)
    &&& tree_growth::child_set(v, t, par, t2, par2, i, new)
    &&& tree_growth::frame(v, t, hdr, t2, hdr2, ch, level, tree_growth::own(par))
    &&& tree_growth::grew(v, t, hdr, ch, t2, hdr2, new, level, lo, lo, Some(base))
    &&& !spares::kept_safe(v, t, hdr, new.addr)
}

proof fn lemma_opened(
    v: Vol,
    p: Pool,
    ag: u32,
    hdr: AgHeader,
    par: Par,
    i: int,
    level: int,
    ch: Child,
    lo: int,
    base: int,
    blk: u64,
    len: int,
) -> (hdr2: AgHeader)
    requires
        v.bs >= 2048,
        tree_laws::settled(v, p.t, ag, hdr),
        tree_growth::holds(v, p.t, hdr, par, level),
        0 <= i < tree_growth::width(par),
        0 < level <= MAX_LEVEL,
        ch.st == CELL_FREE || ch.st == CELL_FULL,
        tree_growth::tidy(v, p.t, hdr, ch, level),
        in_use(v, p.t, hdr, blk, len),
        extent::refined(v, p, ag, par, i, level, ch).2 is Ok,
    ensures
        ({
            let (p2, par2, r2) = extent::refined(v, p, ag, par, i, level, ch);
            let new = Child { st: CELL_REFINED, blocks: 0, addr: r2->Ok_0 };
            &&& tree_laws::settled(v, p2.t, ag, hdr2)
            &&& tree_growth::tidy(v, p2.t, hdr2, new, level)
            &&& in_use(v, p2.t, hdr2, blk, len)
            &&& opened(v, p.t, hdr, par, ch, p2.t, hdr2, par2, new, i, level, lo, base)
        }),
{
    reveal(opened);
    let w = Work { p, fresh: Seq::empty() };
    let hdr2 = tree_growth::lemma_refined(v, w, ag, hdr, par, i, level, ch, lo, Some(base));
    let p2 = extent::refined(v, p, ag, par, i, level, ch).0;
    lemma_run_stays(v, p.t, hdr, p2.t, hdr2, blk, len);
    hdr2
}

proof fn lemma_closed(
    v: Vol,
    ag: u32,
    t: Map<u64, Seq<u8>>,
    hdr: AgHeader,
    par: Par,
    ch: Child,
    t2: Map<u64, Seq<u8>>,
    hdr2: AgHeader,
    par2: Par,
    new: Child,
    t3: Map<u64, Seq<u8>>,
    hdr3: AgHeader,
    i: int,
    level: int,
    lo: int,
    hi: int,
    base: int,
)
    requires
        lo <= hi,
        opened(v, t, hdr, par, ch, t2, hdr2, par2, new, i, level, lo, base),
        tree_laws::settled(v, t3, ag, hdr3),
        tree_growth::frame(v, t2, hdr2, t3, hdr3, new, level, None),
        tree_growth::grew(v, t2, hdr2, new, t3, hdr3, new, level, lo, hi, Some(base)),
    ensures
        recorded(v, ag, t, hdr, par, ch, t3, hdr3, par2, new, i, level, lo, hi, base),
{
    reveal(opened);
    reveal(recorded);
    tree_growth::lemma_grew_refined(
        v,
        t,
        hdr,
        ch,
        t2,
        hdr2,
        new,
        t3,
        hdr3,
        level,
        par,
        par2,
        lo,
        hi,
        i,
        Some(base),
    );
}

/// What recording a run does where a child has to be refined for it.
#[verifier::spinoff_prover]
proof fn lemma_insert_way(
    v: Vol,
    p: Pool,
    ag: u32,
    par: Par,
    i: int,
    level: int,
    ch: Child,
    cs: int,
    f: int,
    blk: int,
    len: int,
)
    requires
        extent::par_get(v, p.t, par, i) == Ok::<Child, FsError>(ch),
        ch.st == CELL_FREE || ch.st == CELL_FULL,
        !(ch.st == CELL_FREE && f == cs),
        !(ch.st == CELL_FULL && f == cs + ch.blocks && blk == ch.addr + ch.blocks),
        extent::child_insert(v, p, ag, par, i, level, cs, f, blk, len).2 is Ok,
    ensures
        ({
            let (p2, par2, r2) = extent::refined(v, p, ag, par, i, level, ch);
            let (p3, r3) = extent::node_insert_from(
                v,
                p2,
                ag,
                r2->Ok_0,
                level - 1,
                cs,
                f,
                blk,
                len,
                0,
            );
            &&& level > 0
            &&& r2 is Ok
            &&& r3 is Ok
            &&& extent::child_insert(v, p, ag, par, i, level, cs, f, blk, len).0 == p3
            &&& extent::child_insert(v, p, ag, par, i, level, cs, f, blk, len).1 == par2
        }),
{
}

/// A run recorded below a child that is refined for it.
#[verifier::rlimit(60)]
#[verifier::spinoff_prover]
proof fn lemma_insert_refined(
    v: Vol,
    p: Pool,
    ag: u32,
    hdr: AgHeader,
    par: Par,
    i: int,
    level: int,
    ch: Child,
    cs: int,
    f: int,
    blk: int,
    len: int,
) -> (r: (AgHeader, Child))
    requires
        v.bs >= 2048,
        tree_laws::settled(v, p.t, ag, hdr),
        tree_growth::holds(v, p.t, hdr, par, level),
        0 <= i < tree_growth::width(par),
        0 <= level <= MAX_LEVEL,
        extent::par_get(v, p.t, par, i) == Ok::<Child, FsError>(ch),
        tree_growth::tidy(v, p.t, hdr, ch, level),
        tree_growth::own(par) is Some ==> !tree_growth::below(
            v,
            p.t,
            ch,
            level,
            tree_growth::own(par)->Some_0,
        ),
        cs <= f,
        1 <= len <= u32::MAX,
        f + len <= cs + treenode::cover(level),
        0 <= blk <= u64::MAX,
        in_use(v, p.t, hdr, blk as u64, len),
        ch.st == CELL_FREE || ch.st == CELL_FULL,
        !(ch.st == CELL_FREE && f == cs),
        !(ch.st == CELL_FULL && f == cs + ch.blocks && blk == ch.addr + ch.blocks),
        extent::child_insert(v, p, ag, par, i, level, cs, f, blk, len).2 is Ok,
    ensures
        ({
            let (p1, par1, _) = extent::child_insert(v, p, ag, par, i, level, cs, f, blk, len);
            recorded(
                v,
                ag,
                p.t,
                hdr,
                par,
                ch,
                p1.t,
                r.0,
                par1,
                r.1,
                i,
                level,
                f - cs,
                f + len - cs,
                blk - (f - cs),
            )
        }),
    decreases level, 1int, 0int,
{
    let t = p.t;
    let lo = f - cs;
    let base = blk - lo;
    let (p2, par2, r2) = extent::refined(v, p, ag, par, i, level, ch);
    let new = Child { st: CELL_REFINED, blocks: 0, addr: r2->Ok_0 };
    lemma_insert_way(v, p, ag, par, i, level, ch, cs, f, blk, len);
    let hdr2 = lemma_opened(v, p, ag, hdr, par, i, level, ch, lo, base, blk as u64, len);
    let hdr3 = lemma_node_insert(v, p2, ag, hdr2, new, level, cs, f, blk, len, 0);
    let p3 = extent::node_insert_from(v, p2, ag, new.addr, level - 1, cs, f, blk, len, 0).0;
    lemma_closed(
        v,
        ag,
        t,
        hdr,
        par,
        ch,
        p2.t,
        hdr2,
        par2,
        new,
        p3.t,
        hdr3,
        i,
        level,
        lo,
        lo + len,
        base,
    );
    (hdr3, new)
}

/// A run recorded in a child.
#[verifier::rlimit(60)]
#[verifier::spinoff_prover]
proof fn lemma_child_insert(
    v: Vol,
    p: Pool,
    ag: u32,
    hdr: AgHeader,
    par: Par,
    i: int,
    level: int,
    ch: Child,
    cs: int,
    f: int,
    blk: int,
    len: int,
) -> (r: (AgHeader, Child))
    requires
        v.bs >= 2048,
        tree_laws::settled(v, p.t, ag, hdr),
        tree_growth::holds(v, p.t, hdr, par, level),
        0 <= i < tree_growth::width(par),
        0 <= level <= MAX_LEVEL,
        extent::par_get(v, p.t, par, i) == Ok::<Child, FsError>(ch),
        tree_growth::tidy(v, p.t, hdr, ch, level),
        tree_growth::own(par) is Some ==> !tree_growth::below(
            v,
            p.t,
            ch,
            level,
            tree_growth::own(par)->Some_0,
        ),
        cs <= f,
        1 <= len <= u32::MAX,
        f + len <= cs + treenode::cover(level),
        0 <= blk <= u64::MAX,
        in_use(v, p.t, hdr, blk as u64, len),
        extent::child_insert(v, p, ag, par, i, level, cs, f, blk, len).2 is Ok,
    ensures
        ({
            let (p1, par1, _) = extent::child_insert(v, p, ag, par, i, level, cs, f, blk, len);
            recorded(
                v,
                ag,
                p.t,
                hdr,
                par,
                ch,
                p1.t,
                r.0,
                par1,
                r.1,
                i,
                level,
                f - cs,
                f + len - cs,
                blk - (f - cs),
            )
        }),
    decreases level, 1int, 1int,
{
    let t = p.t;
    if ch.st == CELL_FREE && f == cs || ch.st == CELL_FULL && f == cs + ch.blocks && blk == ch.addr
        + ch.blocks {
        lemma_insert_set(v, p, ag, hdr, par, i, level, ch, cs, f, blk, len)
    } else if ch.st == CELL_FREE || ch.st == CELL_FULL {
        lemma_insert_refined(v, p, ag, hdr, par, i, level, ch, cs, f, blk, len)
    } else {
        reveal(recorded);
        let hdr3 = lemma_node_insert(v, p, ag, hdr, ch, level, cs, f, blk, len, 0);
        let p3 = extent::node_insert_from(v, p, ag, ch.addr, level - 1, cs, f, blk, len, 0).0;
        tree_growth::lemma_parent_same(v, t, hdr, p3.t, hdr3, par, level);
        (hdr3, ch)
    }
}

/// A run recorded in a node, from block `pos` of it on.
#[verifier::rlimit(100)]
#[verifier::spinoff_prover]
proof fn lemma_node_insert(
    v: Vol,
    p: Pool,
    ag: u32,
    hdr: AgHeader,
    ch: Child,
    level: int,
    ns: int,
    f: int,
    blk: int,
    len: int,
    pos: int,
) -> (hdr1: AgHeader)
    requires
        v.bs >= 2048,
        tree_laws::settled(v, p.t, ag, hdr),
        0 < level <= MAX_LEVEL,
        ch.st == CELL_REFINED,
        tree_growth::tidy(v, p.t, hdr, ch, level),
        ns <= f,
        0 <= pos <= len <= u32::MAX,
        f + len <= ns + treenode::cover(level),
        0 <= blk <= u64::MAX,
        in_use(v, p.t, hdr, blk as u64, len),
        extent::node_insert_from(v, p, ag, ch.addr, level - 1, ns, f, blk, len, pos).1 is Ok,
    ensures
        ({
            let p1 = extent::node_insert_from(
                v,
                p,
                ag,
                ch.addr,
                level - 1,
                ns,
                f,
                blk,
                len,
                pos,
            ).0;
            &&& tree_laws::settled(v, p1.t, ag, hdr1)
            &&& tree_growth::frame(v, p.t, hdr, p1.t, hdr1, ch, level, None)
            &&& tree_growth::grew(
                v,
                p.t,
                hdr,
                ch,
                p1.t,
                hdr1,
                ch,
                level,
                f + pos - ns,
                f + len - ns,
                Some(blk - (f - ns)),
            )
        }),
    decreases level - 1, 2int, len - pos,
{
    let t = p.t;
    let c = treenode::cover(level - 1);
    let put = Some(blk - (f - ns));
    treenode::lemma_cover_monotonic(level - 1, level - 1);
    if pos >= len {
        lemma_grew_none(v, t, hdr, ch, level, f + pos - ns, put);
        hdr
    } else {
        tree_growth::lemma_step(ns, f + pos, f + len, c);
        let i = (f + pos - ns) / c;
        let cs = ns + i * c;
        let stop = if len < cs + c - f {
            len
        } else {
            cs + c - f
        };
        let par = Par::Node(ch.addr);
        let k = tree_growth::kid(v, t, ch, level, i);
        tree_growth::lemma_kid(v, t, hdr, ch, level, i);
        lemma_run_part(v, t, hdr, blk, len, pos, stop);
        let (p1, par1, _) = extent::child_insert(
            v,
            p,
            ag,
            par,
            i,
            level - 1,
            cs,
            f + pos,
            blk + pos,
            stop - pos,
        );
        let (hdr1, k1) = lemma_child_insert(
            v,
            p,
            ag,
            hdr,
            par,
            i,
            level - 1,
            k,
            cs,
            f + pos,
            blk + pos,
            stop - pos,
        );
        let t1 = p1.t;
        reveal(recorded);
        assert(extent::node_insert_from(v, p, ag, ch.addr, level - 1, ns, f, blk, len, pos)
            == extent::node_insert_from(v, p1, ag, ch.addr, level - 1, ns, f, blk, len, stop));
        assert(f + pos - ns - i * c == f + pos - cs && f + stop - ns - i * c == f + stop - cs);
        assert(tree_growth::from_on(put, i * c) == Some(blk + pos - (f + pos - cs)));
        tree_growth::lemma_node_part(
            v,
            t,
            hdr,
            ch,
            t1,
            hdr1,
            par1,
            k1,
            level,
            i,
            f + pos - ns,
            f + stop - ns,
            put,
        );
        lemma_run_stays(v, t, hdr, t1, hdr1, blk as u64, len);
        let hdr2 = lemma_node_insert(v, p1, ag, hdr1, ch, level, ns, f, blk, len, stop);
        let p2 = extent::node_insert_from(
            v,
            p1,
            ag,
            ch.addr,
            level - 1,
            ns,
            f,
            blk,
            len,
            stop,
        ).0;
        tree_growth::lemma_grew_twice(
            v,
            t,
            hdr,
            ch,
            t1,
            hdr1,
            ch,
            p2.t,
            hdr2,
            ch,
            level,
            None,
            f + pos - ns,
            f + stop - ns,
            f + len - ns,
            put,
        );
        hdr2
    }
}

/// Nothing is recorded.
proof fn lemma_grew_none(
    v: Vol,
    t: Map<u64, Seq<u8>>,
    hdr: AgHeader,
    ch: Child,
    level: int,
    lo: int,
    put: Option<int>,
)
    requires
        tree_growth::tidy(v, t, hdr, ch, level),
    ensures
        tree_growth::grew(v, t, hdr, ch, t, hdr, ch, level, lo, lo, put),
{
    reveal(tree_growth::grew_at);
}

// --- recording extents in a root ----------------------------------------------

/// A run recorded in the child of a root, seen from the root.
proof fn lemma_root_recorded(
    v: Vol,
    ag: u32,
    t: Map<u64, Seq<u8>>,
    hdr: AgHeader,
    pl: Seq<u8>,
    t1: Map<u64, Seq<u8>>,
    hdr1: AgHeader,
    par1: Par,
    k1: Child,
    i: int,
    lo: int,
    hi: int,
    base: int,
)
    requires
        tree_growth::tidy_tree(v, t, hdr, pl),
        0 <= i < ROOT_FANOUT,
        i * treenode::cover(pl[0] as int) <= lo,
        hi <= i * treenode::cover(pl[0] as int) + treenode::cover(pl[0] as int),
        recorded(
            v,
            ag,
            t,
            hdr,
            Par::Root(pl),
            treenode::root_at(pl, i),
            t1,
            hdr1,
            par1,
            k1,
            i,
            pl[0] as int,
            lo - i * treenode::cover(pl[0] as int),
            hi - i * treenode::cover(pl[0] as int),
            base + i * treenode::cover(pl[0] as int),
        ),
    ensures
        par1 is Root,
        par1->Root_0[0] == pl[0],
        tree_laws::settled(v, t1, ag, hdr1),
        tree_growth::tree_grew(v, t, hdr, pl, t1, hdr1, par1->Root_0, lo, hi, Some(base)),
{
    reveal(recorded);
    let par = Par::Root(pl);
    let pl1 = par1->Root_0;
    assert(par1 is Root);
    assert(treenode::root_at(pl1, i) == k1);
    assert forall|j: int| 0 <= j < ROOT_FANOUT && j != i implies #[trigger] treenode::root_at(pl1, j)
        == treenode::root_at(pl, j) by {
        assert(extent::par_get(v, t1, par1, j) == extent::par_get(v, t, par, j));
    }
    tree_growth::lemma_root_part(v, t, hdr, pl, t1, hdr1, pl1, i, lo, hi, Some(base));
}

/// A run recorded in a root, from block `pos` of it on.
#[verifier::rlimit(60)]
#[verifier::spinoff_prover]
proof fn lemma_root_insert(
    v: Vol,
    p: Pool,
    ag: u32,
    hdr: AgHeader,
    pl: Seq<u8>,
    f: int,
    blk: int,
    len: int,
    pos: int,
) -> (hdr1: AgHeader)
    requires
        v.bs >= 2048,
        tree_laws::settled(v, p.t, ag, hdr),
        tree_growth::tidy_tree(v, p.t, hdr, pl),
        0 <= f,
        0 <= pos <= len <= u32::MAX,
        f + len <= ROOT_FANOUT * treenode::cover(pl[0] as int),
        0 <= blk <= u64::MAX,
        in_use(v, p.t, hdr, blk as u64, len),
        extent::root_insert(v, p, ag, pl, pl[0] as int, f, blk, len, pos).2 is Ok,
    ensures
        ({
            let (p1, pl1, _) = extent::root_insert(v, p, ag, pl, pl[0] as int, f, blk, len, pos);
            &&& tree_laws::settled(v, p1.t, ag, hdr1)
            &&& pl1[0] == pl[0]
            &&& tree_growth::tree_grew(
                v,
                p.t,
                hdr,
                pl,
                p1.t,
                hdr1,
                pl1,
                f + pos,
                f + len,
                Some(blk - f),
            )
        }),
    decreases len - pos,
{
    reveal(extent::root_insert);
    let t = p.t;
    let level = pl[0] as int;
    let c = treenode::cover(level);
    let put = Some(blk - f);
    treenode::lemma_cover_monotonic(level, level);
    if pos >= len {
        tree_growth::lemma_tree_same(v, t, hdr, pl, f + pos, f + len, put);
        hdr
    } else {
        tree_growth::lemma_root_step(f + pos, f + len, c);
        let i = (f + pos) / c;
        let cs = i * c;
        let stop = if len < cs + c - f {
            len
        } else {
            cs + c - f
        };
        let par = Par::Root(pl);
        let k = treenode::root_at(pl, i);
        assert(tree_growth::tidy(v, t, hdr, k, level));
        lemma_run_part(v, t, hdr, blk, len, pos, stop);
        let (p1, par1, _) = extent::child_insert(
            v,
            p,
            ag,
            par,
            i,
            level,
            cs,
            f + pos,
            blk + pos,
            stop - pos,
        );
        let (hdr1, k1) = lemma_child_insert(
            v,
            p,
            ag,
            hdr,
            par,
            i,
            level,
            k,
            cs,
            f + pos,
            blk + pos,
            stop - pos,
        );
        let t1 = p1.t;
        assert(blk + pos - (f + pos - cs) == blk - f + cs);
        assert(f + pos + (stop - pos) - cs == f + stop - cs);
        lemma_root_recorded(
            v,
            ag,
            t,
            hdr,
            pl,
            t1,
            hdr1,
            par1,
            k1,
            i,
            f + pos,
            f + stop,
            blk - f,
        );
        let pl1 = par1->Root_0;
        lemma_run_stays(v, t, hdr, t1, hdr1, blk as u64, len);
        let hdr2 = lemma_root_insert(v, p1, ag, hdr1, pl1, f, blk, len, stop);
        let (p2, pl2, _) = extent::root_insert(v, p1, ag, pl1, level, f, blk, len, stop);
        tree_growth::lemma_tree_twice(
            v,
            t,
            hdr,
            pl,
            t1,
            hdr1,
            pl1,
            p2.t,
            hdr2,
            pl2,
            f + pos,
            f + stop,
            f + len,
            put,
        );
        hdr2
    }
}

/// What file block `f` is mapped to once the extents from `k` on are recorded over
/// `a`.
pub open spec fn after_all(es: Seq<Extent>, k: int, f: int, a: Option<u64>) -> Option<u64>
    decreases es.len() - k,
{
    if k >= es.len() {
        a
    } else {
        after_all(
            es,
            k + 1,
            f,
            if mapping::covers(es[k], f) {
                Some((es[k].blk + (f - es[k].file_block)) as u64)
            } else {
                a
            },
        )
    }
}

/// Extents apart map a file block to what the one that covers it says.
proof fn lemma_after_all(es: Seq<Extent>, k: int, f: int, a: Option<u64>)
    requires
        mapping_laws::apart(es),
        0 <= k,
    ensures
        forall|j: int, b: int|
            k <= j < es.len() && #[trigger] mapping_laws::leads(es[j], f, b) ==> after_all(
                es,
                k,
                f,
                a,
            ) == Some(b as u64),
        (forall|j: int| k <= j < es.len() ==> !mapping::covers(#[trigger] es[j], f)) ==> after_all(
            es,
            k,
            f,
            a,
        ) == a,
        after_all(es, k, f, a) == a || exists|j: int, b: int|
            k <= j < es.len() && #[trigger] mapping_laws::leads(es[j], f, b) && after_all(
                es,
                k,
                f,
                a,
            ) == Some(b as u64),
    decreases es.len() - k,
{
    if k < es.len() {
        let e = es[k];
        let b = e.blk + (f - e.file_block);
        let a1 = if mapping::covers(e, f) {
            Some(b as u64)
        } else {
            a
        };
        lemma_after_all(es, k + 1, f, a1);
        if mapping::covers(e, f) {
            assert(mapping_laws::leads(es[k], f, b));
            assert forall|j: int| k + 1 <= j < es.len() implies !mapping::covers(
                #[trigger] es[j],
                f,
            ) by {
                assert(mapping_laws::disjoint(es[k], es[j]));
            }
        }
    }
}

/// From `t` to `t1` a tree was built next to what is in use: that is as it was, and
/// no node of the tree is part of it.
#[verifier::opaque]
pub open spec fn built(
    v: Vol,
    t: Map<u64, Seq<u8>>,
    hdr: AgHeader,
    pl: Seq<u8>,
    t1: Map<u64, Seq<u8>>,
    hdr1: AgHeader,
    pl1: Seq<u8>,
) -> bool {
    &&& tree_growth::tidy_tree(v, t1, hdr1, pl1)
    &&& tree_growth::stays(v, t, hdr, t1, hdr1)
    &&& forall|x: u64|
        spares::kept_safe(v, t, hdr, x) && !tree_growth::in_tree(v, t, pl, x) ==> #[trigger] vol::rd(
            v,
            t1,
            x,
        ) == vol::rd(v, t, x)
    &&& forall|x: u64| #[trigger]
        tree_growth::in_tree(v, t1, pl1, x) ==> tree_growth::in_tree(v, t, pl, x)
            || !spares::kept_safe(v, t, hdr, x)
}

proof fn lemma_built_twice(
    v: Vol,
    t: Map<u64, Seq<u8>>,
    hdr: AgHeader,
    pl: Seq<u8>,
    t1: Map<u64, Seq<u8>>,
    hdr1: AgHeader,
    pl1: Seq<u8>,
    t2: Map<u64, Seq<u8>>,
    hdr2: AgHeader,
    pl2: Seq<u8>,
)
    requires
        built(v, t, hdr, pl, t1, hdr1, pl1),
        built(v, t1, hdr1, pl1, t2, hdr2, pl2),
    ensures
        built(v, t, hdr, pl, t2, hdr2, pl2),
{
    reveal(built);
    assert forall|x: u64| #[trigger] tree_growth::in_tree(
        v,
        t2,
        pl2,
        x,
    ) implies tree_growth::in_tree(v, t, pl, x) || !spares::kept_safe(v, t, hdr, x) by {
        if spares::kept_safe(v, t, hdr, x) {
            assert(spares::kept_safe(v, t1, hdr1, x));
            assert(tree_growth::in_tree(v, t1, pl1, x));
        }
    }
    assert forall|x: u64|
        spares::kept_safe(v, t, hdr, x) && !tree_growth::in_tree(
            v,
            t,
            pl,
            x,
        ) implies #[trigger] vol::rd(v, t2, x) == vol::rd(v, t, x) by {
        assert(vol::rd(v, t1, x) == vol::rd(v, t, x));
        assert(spares::kept_safe(v, t1, hdr1, x));
        if tree_growth::in_tree(v, t1, pl1, x) {
            assert(tree_growth::in_tree(v, t, pl, x));
        }
    }
    assert forall|x: u64| spares::kept_safe(v, t, hdr, x) implies #[trigger] spares::kept_safe(
        v,
        t2,
        hdr2,
        x,
    ) by {
        assert(spares::kept_safe(v, t1, hdr1, x));
    }
}

/// One extent recorded in a root.
#[verifier::rlimit(60)]
#[verifier::spinoff_prover]
proof fn lemma_extent_insert(
    v: Vol,
    p: Pool,
    ag: u32,
    hdr: AgHeader,
    pl: Seq<u8>,
    e: Extent,
) -> (hdr1: AgHeader)
    requires
        v.bs >= 2048,
        tree_laws::settled(v, p.t, ag, hdr),
        tree_growth::tidy_tree(v, p.t, hdr, pl),
        e.file_block + e.blocks <= ROOT_FANOUT * treenode::cover(pl[0] as int),
        in_use(v, p.t, hdr, e.blk, e.blocks as int),
        extent::root_insert(
            v,
            p,
            ag,
            pl,
            pl[0] as int,
            e.file_block as int,
            e.blk as int,
            e.blocks as int,
            0,
        ).2 is Ok,
    ensures
        ({
            let (p1, pl1, _) = extent::root_insert(
                v,
                p,
                ag,
                pl,
                pl[0] as int,
                e.file_block as int,
                e.blk as int,
                e.blocks as int,
                0,
            );
            &&& tree_laws::settled(v, p1.t, ag, hdr1)
            &&& tree_growth::tidy_tree(v, p1.t, hdr1, pl1)
            &&& tree_growth::stays(v, p.t, hdr, p1.t, hdr1)
            &&& pl1[0] == pl[0]
            &&& built(v, p.t, hdr, pl, p1.t, hdr1, pl1)
            &&& forall|f: int|
                0 <= f ==> tree_laws::address(#[trigger] mapping::tree_map(v, p1.t, pl1, f))
                    == if mapping::covers(e, f) {
                    Some((e.blk + (f - e.file_block)) as u64)
                } else {
                    tree_laws::address(mapping::tree_map(v, p.t, pl, f))
                }
        }),
{
    reveal(built);
    let level = pl[0] as int;
    let hdr1 = lemma_root_insert(
        v,
        p,
        ag,
        hdr,
        pl,
        e.file_block as int,
        e.blk as int,
        e.blocks as int,
        0,
    );
    let (p1, pl1, _) = extent::root_insert(
        v,
        p,
        ag,
        pl,
        level,
        e.file_block as int,
        e.blk as int,
        e.blocks as int,
        0,
    );
    assert forall|f: int| 0 <= f implies tree_laws::address(
        #[trigger] mapping::tree_map(v, p1.t, pl1, f),
    ) == if mapping::covers(e, f) {
        Some((e.blk + (f - e.file_block)) as u64)
    } else {
        tree_laws::address(mapping::tree_map(v, p.t, pl, f))
    } by {
        assert(tree_growth::block_grew(
            v,
            p.t,
            hdr,
            pl,
            p1.t,
            pl1,
            e.file_block as int,
            e.file_block + e.blocks,
            Some(e.blk - e.file_block),
            f,
        ));
        reveal(tree_growth::block_grew);
    }
    hdr1
}

/// Extents recorded in a root, from extent `k` on.
#[verifier::rlimit(60)]
#[verifier::spinoff_prover]
proof fn lemma_extents_insert(
    v: Vol,
    p: Pool,
    ag: u32,
    hdr: AgHeader,
    pl: Seq<u8>,
    es: Seq<Extent>,
    k: int,
) -> (hdr1: AgHeader)
    requires
        v.bs >= 2048,
        tree_laws::settled(v, p.t, ag, hdr),
        tree_growth::tidy_tree(v, p.t, hdr, pl),
        0 <= k,
        extent::end_of(es) <= ROOT_FANOUT * treenode::cover(pl[0] as int),
        forall|j: int|
            0 <= j < es.len() ==> in_use(
                v,
                p.t,
                hdr,
                (#[trigger] es[j]).blk,
                es[j].blocks as int,
            ),
        extent::extents_insert(v, p, ag, pl, pl[0] as int, es, k).2 is Ok,
    ensures
        ({
            let (p1, pl1, _) = extent::extents_insert(v, p, ag, pl, pl[0] as int, es, k);
            &&& tree_laws::settled(v, p1.t, ag, hdr1)
            &&& tree_growth::tidy_tree(v, p1.t, hdr1, pl1)
            &&& built(v, p.t, hdr, pl, p1.t, hdr1, pl1)
            &&& forall|f: int|
                0 <= f ==> tree_laws::address(#[trigger] mapping::tree_map(v, p1.t, pl1, f))
                    == after_all(es, k, f, tree_laws::address(mapping::tree_map(v, p.t, pl, f)))
        }),
    decreases es.len() - k,
{
    let t = p.t;
    let level = pl[0] as int;
    if k >= es.len() {
        reveal(built);
        hdr
    } else {
        let e = es[k];
        extent::lemma_end_of(es, k);
        let (p1, pl1, _) = extent::root_insert(
            v,
            p,
            ag,
            pl,
            level,
            e.file_block as int,
            e.blk as int,
            e.blocks as int,
            0,
        );
        let hdr1 = lemma_extent_insert(v, p, ag, hdr, pl, e);
        assert forall|j: int| 0 <= j < es.len() implies in_use(
            v,
            p1.t,
            hdr1,
            (#[trigger] es[j]).blk,
            es[j].blocks as int,
        ) by {
            lemma_run_stays(v, t, hdr, p1.t, hdr1, es[j].blk, es[j].blocks as int);
        }
        let hdr2 = lemma_extents_insert(v, p1, ag, hdr1, pl1, es, k + 1);
        let (p2, pl2, _) = extent::extents_insert(v, p1, ag, pl1, level, es, k + 1);
        lemma_built_twice(v, t, hdr, pl, p1.t, hdr1, pl1, p2.t, hdr2, pl2);
        assert forall|f: int| 0 <= f implies tree_laws::address(
            #[trigger] mapping::tree_map(v, p2.t, pl2, f),
        ) == after_all(es, k, f, tree_laws::address(mapping::tree_map(v, t, pl, f))) by {
            assert(tree_laws::address(mapping::tree_map(v, p1.t, pl1, f)) == if mapping::covers(
                e,
                f,
            ) {
                Some((e.blk + (f - e.file_block)) as u64)
            } else {
                tree_laws::address(mapping::tree_map(v, t, pl, f))
            });
        }
        hdr2
    }
}

// --- turning ------------------------------------------------------------------

/// From `t` to `t1` the extents became a tree: what is in use is as it was, with the
/// file's data, the tree's nodes are new, it maps what the extents map, and what it
/// maps beyond was not in use.
#[verifier::opaque]
pub open spec fn turned(
    v: Vol,
    t: Map<u64, Seq<u8>>,
    hdr: AgHeader,
    es: Seq<Extent>,
    t1: Map<u64, Seq<u8>>,
    hdr1: AgHeader,
    pl1: Seq<u8>,
) -> bool {
    &&& tree_laws::use_kept(v, t, hdr, t1, hdr1)
    &&& forall|x: u64| #[trigger]
        tree_growth::in_tree(v, t1, pl1, x) ==> !spares::kept_safe(v, t, hdr, x)
    &&& forall|f: int, a: int| #[trigger]
        mapping_laws::maps(es, f, a) ==> tree_laws::address(mapping::tree_map(v, t1, pl1, f))
            == Some(a as u64)
    &&& forall|f: int|
        0 <= f && tree_laws::address(#[trigger] mapping::tree_map(v, t1, pl1, f)) is Some ==> {
            let b = tree_laws::address(mapping::tree_map(v, t1, pl1, f))->Some_0;
            mapping_laws::maps(es, f, b as int) || !spares::kept_safe(v, t, hdr, b)
        }
}

/// The level of a root that covers the extents.
proof fn lemma_level_for(end: int, level: int)
    requires
        0 <= level <= MAX_LEVEL,
        end <= TREE_LIMIT,
    ensures
        level <= extent::level_for(end, level) <= MAX_LEVEL,
        end <= ROOT_FANOUT * treenode::cover(extent::level_for(end, level)),
    decreases MAX_LEVEL - level,
{
    if level >= MAX_LEVEL {
        reveal_with_fuel(treenode::cover, 12);
        assert(treenode::cover(10) == 0x1000_0000_0000_0000);
    } else if end > ROOT_FANOUT * treenode::cover(level) {
        lemma_level_for(end, level + 1);
    }
}

/// A root without children is a tree in order that maps nothing.
proof fn lemma_bare(v: Vol, t: Map<u64, Seq<u8>>, hdr: AgHeader, level: u8)
    requires
        level <= MAX_LEVEL,
    ensures
        ({
            let pl = treenode::empty_root(level);
            &&& tree_growth::tidy_tree(v, t, hdr, pl)
            &&& pl[0] == level
            &&& forall|x: u64| !(#[trigger] tree_growth::in_tree(v, t, pl, x))
            &&& forall|f: int|
                0 <= f ==> tree_laws::address(#[trigger] mapping::tree_map(v, t, pl, f)) is None
        }),
{
    let pl = treenode::empty_root(level);
    tree_laws::lemma_empty_root(level);
    assert(tree_growth::apart(v, t, pl)) by {
        reveal(tree_growth::apart);
    }
    treenode::lemma_cover_monotonic(level as int, level as int);
    assert(!extent::root_any(pl));
    assert forall|f: int| 0 <= f implies tree_laws::address(
        #[trigger] mapping::tree_map(v, t, pl, f),
    ) is None by {
        tree_laws::lemma_vacant(v, t, pl, f);
    }
}

/// The blocks of extents that own them are in use.
proof fn lemma_owned(v: Vol, t: Map<u64, Seq<u8>>, hdr: AgHeader, es: Seq<Extent>, j: int)
    requires
        mapping_laws::apart(es),
        mapping_laws::owns(v, t, hdr, es),
        0 <= j < es.len(),
    ensures
        in_use(v, t, hdr, es[j].blk, es[j].blocks as int),
{
    reveal(in_use);
    let e = es[j];
    assert(mapping_laws::extent_ok(e));
    assert forall|x: u64| e.blk <= x < e.blk + e.blocks implies #[trigger] spares::kept_safe(
        v,
        t,
        hdr,
        x,
    ) by {
        let f = e.file_block + (x - e.blk);
        assert(mapping_laws::leads(es[j], f, x as int));
        assert(mapping_laws::maps(es, f, x as int));
    }
}

/// A tree that maps what extents map, through nodes that were not in use.
proof fn lemma_plain_turned(
    v: Vol,
    t: Map<u64, Seq<u8>>,
    hdr: AgHeader,
    es: Seq<Extent>,
    t1: Map<u64, Seq<u8>>,
    pl1: Seq<u8>,
)
    requires
        mapping_laws::one_each(es),
        mapping_laws::owns(v, t, hdr, es),
        forall|x: u64| #[trigger]
            tree_growth::in_tree(v, t1, pl1, x) ==> !spares::kept_safe(v, t, hdr, x),
        forall|f: int|
            0 <= f && tree_laws::address(#[trigger] mapping::tree_map(v, t1, pl1, f)) is Some
                ==> mapping_laws::maps(
                es,
                f,
                tree_laws::address(mapping::tree_map(v, t1, pl1, f))->Some_0 as int,
            ),
    ensures
        tree_growth::plain(v, t1, pl1),
{
    reveal(tree_growth::plain);
}

/// Inline extents that become a tree.
#[verifier::rlimit(60)]
#[verifier::spinoff_prover]
pub proof fn lemma_treed(
    v: Vol,
    p: Pool,
    ag: u32,
    hdr: AgHeader,
    m: Mp,
    es: Seq<Extent>,
) -> (hdr1: AgHeader)
    requires
        v.bs >= 2048,
        mapping_laws::grows_from(v, p, ag, hdr, es),
        extent::treed(v, p, ag, m, es).2 is Ok,
    ensures
        ({
            let (p1, m1, _) = extent::treed(v, p, ag, m, es);
            &&& m1.format == FMT_TREE
            &&& tree_laws::settled(v, p1.t, ag, hdr1)
            &&& tree_growth::tidy_tree(v, p1.t, hdr1, m1.payload)
            &&& turned(v, p.t, hdr, es, p1.t, hdr1, m1.payload)
            &&& tree_growth::plain(v, p1.t, m1.payload)
            &&& forall|f: int|
                0 <= f && tree_laws::address(
                    #[trigger] mapping::tree_map(v, p1.t, m1.payload, f),
                ) is Some ==> mapping_laws::maps(
                    es,
                    f,
                    tree_laws::address(mapping::tree_map(v, p1.t, m1.payload, f))->Some_0 as int,
                )
        }),
{
    reveal(extent::treed);
    let t = p.t;
    let end = extent::end_of(es);
    let level = extent::level_for(end, 0);
    lemma_level_for(end, 0);
    let pl = treenode::empty_root(level as u8);
    lemma_bare(v, t, hdr, level as u8);
    assert forall|j: int| 0 <= j < es.len() implies in_use(
        v,
        t,
        hdr,
        (#[trigger] es[j]).blk,
        es[j].blocks as int,
    ) by {
        lemma_owned(v, t, hdr, es, j);
    }
    let hdr1 = lemma_extents_insert(v, p, ag, hdr, pl, es, 0);
    let (p1, pl1, _) = extent::extents_insert(v, p, ag, pl, level, es, 0);
    assert(tree_laws::use_kept(v, t, hdr, p1.t, hdr1)) by {
        reveal(built);
        assert forall|x: u64| spares::kept_safe(v, t, hdr, x) implies #[trigger] vol::rd(v, p1.t, x)
            == vol::rd(v, t, x) by {
            assert(!tree_growth::in_tree(v, t, pl, x));
        }
    }
    assert forall|x: u64| #[trigger] tree_growth::in_tree(v, p1.t, pl1, x) implies !spares::kept_safe(
        v,
        t,
        hdr,
        x,
    ) by {
        reveal(built);
        assert(!tree_growth::in_tree(v, t, pl, x));
    }
    assert forall|f: int, a: int| #[trigger] mapping_laws::maps(es, f, a) implies tree_laws::address(
        mapping::tree_map(v, p1.t, pl1, f),
    ) == Some(a as u64) by {
        lemma_after_all(es, 0, f, None);
        let j = choose|j: int| 0 <= j < es.len() && #[trigger] mapping_laws::leads(es[j], f, a);
        assert(mapping_laws::leads(es[j], f, a));
    }
    assert forall|f: int|
        0 <= f && tree_laws::address(#[trigger] mapping::tree_map(v, p1.t, pl1, f)) is Some implies {
        let b = tree_laws::address(mapping::tree_map(v, p1.t, pl1, f))->Some_0;
        mapping_laws::maps(es, f, b as int)
    } by {
        lemma_after_all(es, 0, f, None);
        let (j, b) = choose|j: int, b: int|
            0 <= j < es.len() && #[trigger] mapping_laws::leads(es[j], f, b) && after_all(
                es,
                0,
                f,
                None,
            ) == Some(b as u64);
        assert(mapping_laws::extent_ok(es[j]));
        assert(mapping_laws::maps(es, f, b));
    }
    lemma_plain_turned(v, t, hdr, es, p1.t, pl1);
    reveal(turned);
    hdr1
}

/// No allocation that fails while inline extents grow spoils the tables.
pub open spec fn steady_inline(v: Vol, w: Work, ag: u32, es: Seq<Extent>, pos: int, end: int) -> bool
    decreases
            if pos < end {
                end - pos
            } else {
                0
            },
{
    pos >= end || {
        let (w1, es1, r1) = extent::inline_step(v, w, ag, es, pos, end);
        match r1 {
            Err(_) => true,
            Ok(None) => !tree_growth::spoils(
                v,
                w.p,
                ag,
                extent::next_mapped(es, pos, end, 0) - pos,
            ),
            Ok(Some(next)) => next <= pos || steady_inline(v, w1, ag, es1, next, end),
        }
    }
}

/// Growing inline, and then turning.
#[verifier::rlimit(40)]
proof fn lemma_turned_more(
    v: Vol,
    t: Map<u64, Seq<u8>>,
    hdr: AgHeader,
    es: Seq<Extent>,
    t1: Map<u64, Seq<u8>>,
    hdr1: AgHeader,
    es1: Seq<Extent>,
    t2: Map<u64, Seq<u8>>,
    hdr2: AgHeader,
    pl2: Seq<u8>,
)
    requires
        tables::same_place(hdr, hdr1),
        mapping_laws::grew(v, t, es, t1, es1, hdr),
        turned(v, t1, hdr1, es1, t2, hdr2, pl2),
    ensures
        turned(v, t, hdr, es, t2, hdr2, pl2),
{
    reveal(turned);
    assert forall|x: u64| spares::kept_safe(v, t, hdr, x) implies #[trigger] spares::kept_safe(
        v,
        t1,
        hdr1,
        x,
    ) by {
        assert(spares::kept_safe(v, t1, hdr, x));
        tables::lemma_state_place(v, t1, hdr, hdr1, crate::fmt::addr_local(x) as int);
    }
    assert forall|x: u64| spares::kept_safe(v, t, hdr, x) implies #[trigger] vol::rd(v, t2, x)
        == vol::rd(v, t, x) by {
        assert(vol::rd(v, t1, x) == vol::rd(v, t, x));
        assert(spares::kept_safe(v, t1, hdr1, x));
    }
    assert forall|x: u64| spares::kept_safe(v, t, hdr, x) implies #[trigger] spares::kept_safe(
        v,
        t2,
        hdr2,
        x,
    ) by {
        assert(spares::kept_safe(v, t1, hdr1, x));
    }
    assert forall|x: u64| #[trigger] tree_growth::in_tree(v, t2, pl2, x) implies !spares::kept_safe(
        v,
        t,
        hdr,
        x,
    ) by {
        if spares::kept_safe(v, t, hdr, x) {
            assert(spares::kept_safe(v, t1, hdr1, x));
        }
    }
    assert forall|f: int, a: int| #[trigger] mapping_laws::maps(es, f, a) implies tree_laws::address(
        mapping::tree_map(v, t2, pl2, f),
    ) == Some(a as u64) by {
        assert(mapping_laws::maps(es1, f, a));
    }
    assert forall|f: int|
        0 <= f && tree_laws::address(#[trigger] mapping::tree_map(v, t2, pl2, f)) is Some implies {
        let b = tree_laws::address(mapping::tree_map(v, t2, pl2, f))->Some_0;
        mapping_laws::maps(es, f, b as int) || !spares::kept_safe(v, t, hdr, b)
    } by {
        let b = tree_laws::address(mapping::tree_map(v, t2, pl2, f))->Some_0;
        if spares::kept_safe(v, t, hdr, b) {
            assert(spares::kept_safe(v, t1, hdr1, b));
            assert(mapping_laws::maps(es1, f, b as int));
        }
    }
}

/// Extents that could not get longer, the tables not spoiled.
pub proof fn lemma_grows_still(v: Vol, p: Pool, ag: u32, hdr: AgHeader, es: Seq<Extent>, p1: Pool)
    requires
        mapping_laws::grows_from(v, p, ag, hdr, es),
        tree_laws::settled(v, p1.t, ag, hdr),
        tree_laws::use_kept(v, p.t, hdr, p1.t, hdr),
    ensures
        mapping_laws::grows_from(v, p1, ag, hdr, es),
        mapping_laws::grew(v, p.t, es, p1.t, es, hdr),
{
    assert forall|f: int, a: int| #[trigger] mapping_laws::maps(es, f, a) implies spares::kept_safe(
        v,
        p1.t,
        hdr,
        a as u64,
    ) by {
        assert(spares::kept_safe(v, p.t, hdr, a as u64));
    }
}

/// Inline extents that grow until they become a tree.
#[verifier::rlimit(60)]
#[verifier::spinoff_prover]
pub proof fn lemma_inline_turned(
    v: Vol,
    w: Work,
    ag: u32,
    hdr: AgHeader,
    m: Mp,
    es: Seq<Extent>,
    pos: int,
    end: int,
) -> (hdr1: AgHeader)
    requires
        v.bs >= 2048,
        mapping_laws::grows_from(v, w.p, ag, hdr, es),
        0 <= pos <= end <= u64::MAX,
        m.format == FMT_EXTENT,
        steady_inline(v, w, ag, es, pos, end),
        extent::inline_fit(v, w, ag, m, es, pos, end).2 is Ok,
        extent::inline_fit(v, w, ag, m, es, pos, end).1.format == FMT_TREE,
    ensures
        ({
            let (w1, m1, _) = extent::inline_fit(v, w, ag, m, es, pos, end);
            &&& tree_laws::settled(v, w1.p.t, ag, hdr1)
            &&& tree_growth::tidy_tree(v, w1.p.t, hdr1, m1.payload)
            &&& turned(v, w.p.t, hdr, es, w1.p.t, hdr1, m1.payload)
            &&& tree_growth::plain(v, w1.p.t, m1.payload)
        }),
    decreases end - pos,
{
    if pos >= end {
        lemma_treed(v, w.p, ag, hdr, m, es)
    } else {
        let (w1, es1, r1) = extent::inline_step(v, w, ag, es, pos, end);
        if r1 matches Ok(None) {
            assert(es1 == es && w1.p == allocator::allocated(
                v,
                w.p,
                ag,
                extent::next_mapped(es, pos, end, 0) - pos,
            ).0 && allocator::allocated(
                v,
                w.p,
                ag,
                extent::next_mapped(es, pos, end, 0) - pos,
            ).1 is Err) by {
                reveal(extent::inline_step);
            }
            lemma_grows_still(v, w.p, ag, hdr, es, w1.p);
            let hdr1 = lemma_treed(v, w1.p, ag, hdr, m, es);
            let (p2, m2, _) = extent::treed(v, w1.p, ag, m, es);
            lemma_turned_more(v, w.p.t, hdr, es, w1.p.t, hdr, es, p2.t, hdr1, m2.payload);
            hdr1
        } else {
            let next = r1->Ok_0->Some_0;
            let hdr1 = mapping_laws::lemma_inline_step(v, w, ag, hdr, es, pos, end);
            let hdr2 = lemma_inline_turned(v, w1, ag, hdr1, m, es1, next, end);
            let (w2, m2, _) = extent::inline_fit(v, w1, ag, m, es1, next, end);
            lemma_turned_more(
                v,
                w.p.t,
                hdr,
                es,
                w1.p.t,
                hdr1,
                es1,
                w2.p.t,
                hdr2,
                m2.payload,
            );
            hdr2
        }
    }
}

/// No allocation that fails while a file with inline extents grows, and turns into
/// one with a tree, spoils the tables.
pub open spec fn steady_file(v: Vol, p: Pool, ag: u32, m: Mp, f: int, n: int) -> bool {
    let w = Work { p, fresh: Seq::empty() };
    let es = inode::extents_of(m.payload);
    let (w1, m1, r1) = extent::inline_fit(v, w, ag, m, es, f, f + n);
    &&& steady_inline(v, w, ag, es, f, f + n)
    &&& r1 is Ok && m1.format == FMT_TREE ==> tree_growth::steady_tree(
        v,
        w1,
        ag,
        m1.payload,
        f,
        n,
    )
}

/// Turning, and then growing as a tree.
#[verifier::rlimit(40)]
proof fn lemma_turned_grew(
    v: Vol,
    t: Map<u64, Seq<u8>>,
    hdr: AgHeader,
    es: Seq<Extent>,
    t1: Map<u64, Seq<u8>>,
    hdr1: AgHeader,
    pl1: Seq<u8>,
    t2: Map<u64, Seq<u8>>,
    hdr2: AgHeader,
    pl2: Seq<u8>,
    lo: int,
    hi: int,
)
    requires
        turned(v, t, hdr, es, t1, hdr1, pl1),
        tree_growth::tree_grew(v, t1, hdr1, pl1, t2, hdr2, pl2, lo, hi, None::<int>),
    ensures
        turned(v, t, hdr, es, t2, hdr2, pl2),
        forall|f: int|
            0 <= f && lo <= f < hi ==> tree_laws::address(
                #[trigger] mapping::tree_map(v, t2, pl2, f),
            ) is Some,
{
    reveal(turned);
    assert forall|f: int| 0 <= f implies tree_growth::block_grew(
        v,
        t1,
        hdr1,
        pl1,
        t2,
        pl2,
        lo,
        hi,
        None::<int>,
        f,
    ) by {}
    assert forall|x: u64| spares::kept_safe(v, t, hdr, x) implies #[trigger] vol::rd(v, t2, x)
        == vol::rd(v, t, x) by {
        assert(vol::rd(v, t1, x) == vol::rd(v, t, x));
        assert(spares::kept_safe(v, t1, hdr1, x));
        assert(!tree_growth::in_tree(v, t1, pl1, x));
    }
    assert forall|x: u64| spares::kept_safe(v, t, hdr, x) implies #[trigger] spares::kept_safe(
        v,
        t2,
        hdr2,
        x,
    ) by {
        assert(spares::kept_safe(v, t1, hdr1, x));
    }
    assert forall|x: u64| #[trigger] tree_growth::in_tree(v, t2, pl2, x) implies !spares::kept_safe(
        v,
        t,
        hdr,
        x,
    ) by {
        if spares::kept_safe(v, t, hdr, x) {
            assert(spares::kept_safe(v, t1, hdr1, x));
            assert(tree_growth::in_tree(v, t1, pl1, x));
        }
    }
    assert forall|f: int, a: int| #[trigger] mapping_laws::maps(es, f, a) implies tree_laws::address(
        mapping::tree_map(v, t2, pl2, f),
    ) == Some(a as u64) by {
        assert(tree_growth::block_grew(v, t1, hdr1, pl1, t2, pl2, lo, hi, None::<int>, f));
        reveal(tree_growth::block_grew);
    }
    assert forall|f: int|
        0 <= f && tree_laws::address(#[trigger] mapping::tree_map(v, t2, pl2, f)) is Some implies {
        let b = tree_laws::address(mapping::tree_map(v, t2, pl2, f))->Some_0;
        mapping_laws::maps(es, f, b as int) || !spares::kept_safe(v, t, hdr, b)
    } by {
        let b = tree_laws::address(mapping::tree_map(v, t2, pl2, f))->Some_0;
        assert(tree_growth::block_grew(v, t1, hdr1, pl1, t2, pl2, lo, hi, None::<int>, f));
        reveal(tree_growth::block_grew);
        if spares::kept_safe(v, t, hdr, b) {
            assert(spares::kept_safe(v, t1, hdr1, b));
            assert(tree_laws::address(mapping::tree_map(v, t1, pl1, f)) == Some(b));
        }
    }
    assert forall|f: int| 0 <= f && lo <= f < hi implies tree_laws::address(
        #[trigger] mapping::tree_map(v, t2, pl2, f),
    ) is Some by {
        assert(tree_growth::block_grew(v, t1, hdr1, pl1, t2, pl2, lo, hi, None::<int>, f));
        reveal(tree_growth::block_grew);
    }
}

/// A file that turns from inline extents into a tree as it grows keeps every block
/// that it had, where it was and with what it held; every block of the range is
/// mapped; and what is new to the file, blocks and nodes, was not in use. Afterwards
/// the tree is in order and the tables are sound. Left out is a group with so little
/// room that an allocation fails halfway through a change of the tables themselves.
pub proof fn law_turning_into_a_tree_keeps_the_file(
    v: Vol,
    p: Pool,
    ag: u32,
    hdr: AgHeader,
    m: Mp,
    f: int,
    n: int,
) -> (hdr1: AgHeader)
    requires
        v.bs >= 2048,
        m.format == FMT_EXTENT,
        mapping_laws::grows_from(v, p, ag, hdr, inode::extents_of(m.payload)),
        0 <= f,
        0 <= n,
        steady_file(v, p, ag, m, f, n),
        extent::ensured(v, p, ag, m, f, n).2 is Ok,
        extent::ensured(v, p, ag, m, f, n).1.format == FMT_TREE,
    ensures
        ({
            let (p1, m1, _) = extent::ensured(v, p, ag, m, f, n);
            let es = inode::extents_of(m.payload);
            &&& tree_laws::settled(v, p1.t, ag, hdr1)
            &&& tree_growth::tidy_tree(v, p1.t, hdr1, m1.payload)
            &&& tree_laws::use_kept(v, p.t, hdr, p1.t, hdr1)
            &&& forall|g: int, a: int| #[trigger]
                mapping_laws::maps(es, g, a) ==> tree_laws::address(
                    mapping::tree_map(v, p1.t, m1.payload, g),
                ) == Some(a as u64) && vol::rd(v, p1.t, a as u64) == vol::rd(v, p.t, a as u64)
            &&& forall|g: int|
                f <= g < f + n ==> tree_laws::address(
                    #[trigger] mapping::tree_map(v, p1.t, m1.payload, g),
                ) is Some
            &&& turned(v, p.t, hdr, es, p1.t, hdr1, m1.payload)
            &&& n == 1 ==> tree_growth::plain(v, p1.t, m1.payload)
        }),
{
    let w = Work { p, fresh: Seq::empty() };
    let es = inode::extents_of(m.payload);
    let (w1, m1, r1) = extent::inline_fit(v, w, ag, m, es, f, f + n);
    lemma_fit_format(v, w, ag, m, es, f, f + n);
    let hdr1 = lemma_inline_turned(v, w, ag, hdr, m, es, f, f + n);
    let hdr2 = tree_growth::lemma_tree_ensured(v, w1, ag, hdr1, m1, f, n);
    let (p2, m2, _) = extent::tree_ensured(v, w1, ag, m1, f, n);
    if n == 1 {
        tree_growth::lemma_plain_grew(
            v,
            w1.p.t,
            hdr1,
            m1.payload,
            p2.t,
            hdr2,
            m2.payload,
            f,
        );
    }
    lemma_turned_grew(
        v,
        p.t,
        hdr,
        es,
        w1.p.t,
        hdr1,
        m1.payload,
        p2.t,
        hdr2,
        m2.payload,
        f,
        f + n,
    );
    reveal(turned);
    assert forall|g: int, a: int| #[trigger] mapping_laws::maps(es, g, a) implies vol::rd(
        v,
        p2.t,
        a as u64,
    ) == vol::rd(v, p.t, a as u64) by {
        assert(spares::kept_safe(v, p.t, hdr, a as u64));
    }
    hdr2
}

/// What grew is inline or a tree.
pub proof fn lemma_fit_format(v: Vol, w: Work, ag: u32, m: Mp, es: Seq<Extent>, pos: int, end: int)
    requires
        m.format == FMT_EXTENT,
    ensures
        ({
            let (w1, m1, r1) = extent::inline_fit(v, w, ag, m, es, pos, end);
            r1 is Ok ==> m1.format == FMT_EXTENT || m1.format == FMT_TREE
        }),
    decreases
            if pos < end {
                end - pos
            } else {
                0
            },
{
    reveal(extent::treed);
    if pos < end {
        let (w1, es1, r1) = extent::inline_step(v, w, ag, es, pos, end);
        if r1 matches Ok(Some(_)) {
            let next = r1->Ok_0->Some_0;
            if next > pos {
                lemma_fit_format(v, w1, ag, m, es1, next, end);
            }
        }
    }
}

} // verus!
