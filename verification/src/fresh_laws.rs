//! Which runs are fresh: those, and those alone, whose blocks the file did not have
//! before.

use crate::allocator::Pool;
use crate::error::FsError;
use crate::extent::{Par, Work};
use crate::fmt::{
    CELL_FREE, CELL_FULL, CELL_REFINED, FMT_EXTENT, FMT_TREE, MAX_INLINE_EXTENTS,
    ROOT_FANOUT,
};
use crate::header::AgHeader;
use crate::inode::Extent;
use crate::mapping::{Mapping, Mp};
use crate::treenode::{Child, MAX_LEVEL};
use crate::vol::Vol;
use vstd::prelude::*;

use crate::allocator;
use crate::extent;
use crate::inode;
use crate::mapping;
use crate::mapping_laws;
use crate::tree_growth;
use crate::tree_laws;
use crate::tree_turn;
use crate::treenode;

verus! {

/// Offset `rel` of a child is a hole.
spec fn hole_in(v: Vol, t: Map<u64, Seq<u8>>, ch: Child, level: int, rel: int) -> bool {
    tree_laws::address(mapping::child_map(v, t, ch, rel, level)) is None
}

/// File block `f` of a tree is a hole.
spec fn hole_of(v: Vol, t: Map<u64, Seq<u8>>, pl: Seq<u8>, f: int) -> bool {
    tree_laws::address(mapping::tree_map(v, t, pl, f)) is None
}

/// The blocks of `lo` to `hi` that were holes of the child from `cs` on, and no others,
/// joined the fresh ones.
#[verifier::opaque]
spec fn marks(
    v: Vol,
    t: Map<u64, Seq<u8>>,
    ch: Child,
    level: int,
    cs: int,
    old: Seq<(u64, u64)>,
    new: Seq<(u64, u64)>,
    lo: int,
    hi: int,
) -> bool {
    forall|g: int| #[trigger]
        mapping::in_some(new, g) == (mapping::in_some(old, g) || (lo <= g < hi && hole_in(
            v,
            t,
            ch,
            level,
            g - cs,
        )))
}

/// One range more.
proof fn lemma_in_more(fresh: Seq<(u64, u64)>, a: u64, n: u64, g: int)
    ensures
        mapping::in_some(fresh.push((a, n)), g) == (mapping::in_some(fresh, g) || a <= g < a + n),
{
    let more = fresh.push((a, n));
    if mapping::in_some(more, g) {
        let k = choose|k: int|
            0 <= k < more.len() && (#[trigger] more[k]).0 <= g < more[k].0 + more[k].1;
        if k < fresh.len() {
            assert(fresh[k] == more[k]);
        }
    }
    if mapping::in_some(fresh, g) {
        let k = choose|k: int|
            0 <= k < fresh.len() && (#[trigger] fresh[k]).0 <= g < fresh[k].0 + fresh[k].1;
        assert(more[k] == fresh[k]);
    }
    if a <= g < a + n {
        assert(more[fresh.len() as int] == (a, n));
    }
}

/// A child that changed its form has the holes that it had.
proof fn lemma_marks_through(
    v: Vol,
    t: Map<u64, Seq<u8>>,
    hdr: AgHeader,
    ch: Child,
    t2: Map<u64, Seq<u8>>,
    hdr2: AgHeader,
    new: Child,
    level: int,
    cs: int,
    old: Seq<(u64, u64)>,
    fresh: Seq<(u64, u64)>,
    at: int,
    lo: int,
    hi: int,
)
    requires
        cs <= lo,
        hi <= cs + treenode::cover(level),
        tree_growth::grew(v, t, hdr, ch, t2, hdr2, new, level, at, at, None::<int>),
        marks(v, t2, new, level, cs, old, fresh, lo, hi),
    ensures
        marks(v, t, ch, level, cs, old, fresh, lo, hi),
{
    reveal(marks);
    assert forall|g: int| #[trigger]
        mapping::in_some(fresh, g) == (mapping::in_some(old, g) || (lo <= g < hi && hole_in(
            v,
            t,
            ch,
            level,
            g - cs,
        ))) by {
        if lo <= g < hi {
            assert(tree_growth::grew_at(
                v,
                t,
                hdr,
                ch,
                t2,
                new,
                level,
                at,
                at,
                None::<int>,
                g - cs,
            ));
            reveal(tree_growth::grew_at);
        }
    }
}

/// A run that covers the range has no hole in it.
proof fn lemma_run_whole(v: Vol, t: Map<u64, Seq<u8>>, hdr: AgHeader, ch: Child, level: int, rel: int)
    requires
        ch.st == CELL_FULL,
        tree_growth::tidy(v, t, hdr, ch, level),
        0 <= rel < ch.blocks,
        rel < treenode::cover(level),
    ensures
        !hole_in(v, t, ch, level, rel),
{
}

/// What a child marks as fresh where it grows.
#[verifier::rlimit(60)]
#[verifier::spinoff_prover]
proof fn lemma_child_marks(
    v: Vol,
    w: Work,
    ag: u32,
    hdr: AgHeader,
    par: Par,
    i: int,
    level: int,
    ch: Child,
    cs: int,
    from: int,
    to: int,
)
    requires
        v.bs >= 2048,
        tree_laws::settled(v, w.p.t, ag, hdr),
        tree_growth::holds(v, w.p.t, hdr, par, level),
        0 <= i < tree_growth::width(par),
        0 <= level <= MAX_LEVEL,
        extent::par_get(v, w.p.t, par, i) == Ok::<Child, FsError>(ch),
        tree_growth::tidy(v, w.p.t, hdr, ch, level),
        0 <= cs <= from < to <= cs + treenode::cover(level),
        to <= u64::MAX,
        tree_growth::steady(v, w, ag, par, i, level, cs, from, to),
        extent::child_fit(v, w, ag, par, i, level, cs, from, to).2 is Ok,
    ensures
        marks(
            v,
            w.p.t,
            ch,
            level,
            cs,
            w.fresh,
            extent::child_fit(v, w, ag, par, i, level, cs, from, to).0.fresh,
            from,
            to,
        ),
    decreases level, 1int, 0int,
{
    let t = w.p.t;
    let w9 = extent::child_fit(v, w, ag, par, i, level, cs, from, to).0;
    let lo = from - cs;
    if ch.st == CELL_FULL && to - cs <= ch.blocks {
        reveal(marks);
        assert forall|g: int| #[trigger]
            mapping::in_some(w9.fresh, g) == (mapping::in_some(w.fresh, g) || (from <= g < to
                && hole_in(v, t, ch, level, g - cs))) by {
            if from <= g < to {
                lemma_run_whole(v, t, hdr, ch, level, g - cs);
            }
        }
    } else if ch.st == CELL_FREE && from == cs {
        let (p1, r1) = allocator::allocated(v, w.p, ag, to - cs);
        if r1 is Ok {
            reveal(marks);
            assert forall|g: int| #[trigger]
                mapping::in_some(w9.fresh, g) == (mapping::in_some(w.fresh, g) || (from <= g < to
                    && hole_in(v, t, ch, level, g - cs))) by {
                lemma_in_more(w.fresh, cs as u64, (to - cs) as u64, g);
            }
        } else {
            let w1 = Work { p: p1, ..w };
            tree_growth::lemma_parent_same(v, t, hdr, p1.t, hdr, par, level);
            tree_growth::lemma_grew_hole(
                v,
                t,
                hdr,
                p1.t,
                hdr,
                ch,
                level,
                tree_growth::own(par),
                lo,
            );
            let (p2, par2, r2) = extent::refined(v, p1, ag, par, i, level, ch);
            let new = Child { st: CELL_REFINED, blocks: 0, addr: r2->Ok_0 };
            let w2 = Work { p: p2, ..w };
            let hdr2 = tree_growth::lemma_refined(
                v,
                w1,
                ag,
                hdr,
                par,
                i,
                level,
                ch,
                lo,
                None::<int>,
            );
            lemma_node_marks(v, w2, ag, hdr2, new, level, cs, from, to);
            lemma_marks_through(
                v,
                p1.t,
                hdr,
                ch,
                p2.t,
                hdr2,
                new,
                level,
                cs,
                w.fresh,
                w9.fresh,
                lo,
                from,
                to,
            );
            lemma_marks_through(
                v,
                t,
                hdr,
                ch,
                p1.t,
                hdr,
                ch,
                level,
                cs,
                w.fresh,
                w9.fresh,
                lo,
                from,
                to,
            );
        }
    } else if ch.st == CELL_FREE || ch.st == CELL_FULL {
        let (p2, par2, r2) = extent::refined(v, w.p, ag, par, i, level, ch);
        let new = Child { st: CELL_REFINED, blocks: 0, addr: r2->Ok_0 };
        let w2 = Work { p: p2, ..w };
        let hdr2 = tree_growth::lemma_refined(v, w, ag, hdr, par, i, level, ch, lo, None::<int>);
        lemma_node_marks(v, w2, ag, hdr2, new, level, cs, from, to);
        lemma_marks_through(
            v,
            t,
            hdr,
            ch,
            p2.t,
            hdr2,
            new,
            level,
            cs,
            w.fresh,
            w9.fresh,
            lo,
            from,
            to,
        );
    } else {
        lemma_node_marks(v, w, ag, hdr, ch, level, cs, from, to);
    }
}

/// A child and its part that covers `g`.
proof fn lemma_part_hole(v: Vol, t: Map<u64, Seq<u8>>, hdr: AgHeader, ch: Child, level: int, i: int, rel: int)
    requires
        level > 0,
        ch.st == CELL_REFINED,
        tree_growth::tidy(v, t, hdr, ch, level),
        0 <= i < 64,
        i * treenode::cover(level - 1) <= rel < i * treenode::cover(level - 1) + treenode::cover(
            level - 1,
        ),
    ensures
        hole_in(v, t, ch, level, rel) == hole_in(
            v,
            t,
            tree_growth::kid(v, t, ch, level, i),
            level - 1,
            rel - i * treenode::cover(level - 1),
        ),
{
    let c = treenode::cover(level - 1);
    treenode::lemma_cover_monotonic(level - 1, level - 1);
    assert(rel / c == i && rel % c == rel - i * c) by (nonlinear_arith)
        requires
            c >= 1,
            i * c <= rel < i * c + c,
    ;
}

/// What a node marks as fresh where it grows.
#[verifier::rlimit(60)]
#[verifier::spinoff_prover]
proof fn lemma_node_marks(
    v: Vol,
    w: Work,
    ag: u32,
    hdr: AgHeader,
    ch: Child,
    level: int,
    ns: int,
    pos: int,
    to: int,
)
    requires
        v.bs >= 2048,
        tree_laws::settled(v, w.p.t, ag, hdr),
        0 < level <= MAX_LEVEL,
        ch.st == CELL_REFINED,
        tree_growth::tidy(v, w.p.t, hdr, ch, level),
        0 <= ns <= pos <= to <= ns + treenode::cover(level),
        to <= u64::MAX,
        tree_growth::steady_from(v, w, ag, ch.addr, level - 1, ns, pos, to),
        extent::node_fit_from(v, w, ag, ch.addr, level - 1, ns, pos, to).1 is Ok,
    ensures
        marks(
            v,
            w.p.t,
            ch,
            level,
            ns,
            w.fresh,
            extent::node_fit_from(v, w, ag, ch.addr, level - 1, ns, pos, to).0.fresh,
            pos,
            to,
        ),
    decreases level - 1, 2int, to - pos,
{
    let t = w.p.t;
    let c = treenode::cover(level - 1);
    treenode::lemma_cover_monotonic(level - 1, level - 1);
    if pos >= to {
        reveal(marks);
    } else {
        tree_growth::lemma_step(ns, pos, to, c);
        let i = (pos - ns) / c;
        let cs = ns + i * c;
        let end = if to < cs + c {
            to
        } else {
            cs + c
        };
        let par = Par::Node(ch.addr);
        let k = tree_growth::kid(v, t, ch, level, i);
        tree_growth::lemma_kid(v, t, hdr, ch, level, i);
        assert(0 <= i * c) by (nonlinear_arith)
            requires
                0 <= i,
                c >= 1,
        ;
        let (w1, par1, _) = extent::child_fit(v, w, ag, par, i, level - 1, cs, pos, end);
        let (hdr1, k1) = tree_growth::lemma_child_fit(
            v,
            w,
            ag,
            hdr,
            par,
            i,
            level - 1,
            k,
            cs,
            pos,
            end,
        );
        lemma_child_marks(v, w, ag, hdr, par, i, level - 1, k, cs, pos, end);
        let t1 = w1.p.t;
        assert(pos - ns - i * c == pos - cs && end - ns - i * c == end - cs);
        tree_growth::lemma_node_part(
            v,
            t,
            hdr,
            ch,
            t1,
            hdr1,
            par1,
            k1,
            level,
            i,
            pos - ns,
            end - ns,
            None::<int>,
        );
        lemma_node_marks(v, w1, ag, hdr1, ch, level, ns, end, to);
        let w2 = extent::node_fit_from(v, w1, ag, ch.addr, level - 1, ns, end, to).0;
        lemma_marks_join(
            v,
            t,
            hdr,
            ch,
            t1,
            hdr1,
            level,
            ns,
            i,
            w.fresh,
            w1.fresh,
            w2.fresh,
            pos,
            end,
            to,
        );
    }
}

/// A part of a node, and then the rest of it.
#[verifier::rlimit(40)]
proof fn lemma_marks_join(
    v: Vol,
    t: Map<u64, Seq<u8>>,
    hdr: AgHeader,
    ch: Child,
    t1: Map<u64, Seq<u8>>,
    hdr1: AgHeader,
    level: int,
    ns: int,
    i: int,
    f0: Seq<(u64, u64)>,
    f1: Seq<(u64, u64)>,
    f2: Seq<(u64, u64)>,
    pos: int,
    end: int,
    to: int,
)
    requires
        0 < level,
        ch.st == CELL_REFINED,
        tree_growth::tidy(v, t, hdr, ch, level),
        0 <= i < 64,
        ns + i * treenode::cover(level - 1) <= pos <= end <= to <= ns + treenode::cover(level),
        ns <= pos,
        end <= ns + i * treenode::cover(level - 1) + treenode::cover(level - 1),
        tree_growth::grew(
            v,
            t,
            hdr,
            ch,
            t1,
            hdr1,
            ch,
            level,
            pos - ns,
            end - ns,
            None::<int>,
        ),
        marks(
            v,
            t,
            tree_growth::kid(v, t, ch, level, i),
            level - 1,
            ns + i * treenode::cover(level - 1),
            f0,
            f1,
            pos,
            end,
        ),
        marks(v, t1, ch, level, ns, f1, f2, end, to),
    ensures
        marks(v, t, ch, level, ns, f0, f2, pos, to),
{
    reveal(marks);
    assert forall|g: int| #[trigger]
        mapping::in_some(f2, g) == (mapping::in_some(f0, g) || (pos <= g < to && hole_in(
            v,
            t,
            ch,
            level,
            g - ns,
        ))) by {
        assert(mapping::in_some(f1, g) == mapping::in_some(f1, g));
        if pos <= g < end {
            lemma_part_hole(v, t, hdr, ch, level, i, g - ns);
        } else if end <= g < to {
            assert(tree_growth::grew_at(
                v,
                t,
                hdr,
                ch,
                t1,
                ch,
                level,
                pos - ns,
                end - ns,
                None::<int>,
                g - ns,
            ));
            reveal(tree_growth::grew_at);
        }
    }
}

/// The blocks of `lo` to `hi` that were holes of the tree, and no others, joined the
/// fresh ones.
#[verifier::opaque]
spec fn tree_marks(
    v: Vol,
    t: Map<u64, Seq<u8>>,
    pl: Seq<u8>,
    old: Seq<(u64, u64)>,
    new: Seq<(u64, u64)>,
    lo: int,
    hi: int,
) -> bool {
    forall|g: int| #[trigger]
        mapping::in_some(new, g) == (mapping::in_some(old, g) || (lo <= g < hi && hole_of(
            v,
            t,
            pl,
            g,
        )))
}

/// What the root marks as fresh where it grows.
#[verifier::rlimit(60)]
#[verifier::spinoff_prover]
proof fn lemma_root_marks(
    v: Vol,
    w: Work,
    ag: u32,
    hdr: AgHeader,
    pl: Seq<u8>,
    pos: int,
    end: int,
)
    requires
        v.bs >= 2048,
        tree_laws::settled(v, w.p.t, ag, hdr),
        tree_growth::tidy_tree(v, w.p.t, hdr, pl),
        0 <= pos <= end <= ROOT_FANOUT * treenode::cover(pl[0] as int),
        end <= u64::MAX,
        tree_growth::steady_root(v, w, ag, pl, pl[0] as int, pos, end),
        extent::root_fit(v, w, ag, pl, pl[0] as int, pos, end).2 is Ok,
    ensures
        tree_marks(
            v,
            w.p.t,
            pl,
            w.fresh,
            extent::root_fit(v, w, ag, pl, pl[0] as int, pos, end).0.fresh,
            pos,
            end,
        ),
    decreases end - pos,
{
    reveal(extent::root_fit);
    let t = w.p.t;
    let level = pl[0] as int;
    let c = treenode::cover(level);
    treenode::lemma_cover_monotonic(level, level);
    if pos >= end {
        reveal(tree_marks);
    } else {
        tree_growth::lemma_root_step(pos, end, c);
        let i = pos / c;
        let cs = i * c;
        assert(0 <= i * c) by (nonlinear_arith)
            requires
                0 <= i,
                c >= 1,
        ;
        let stop = if end < cs + c {
            end
        } else {
            cs + c
        };
        let par = Par::Root(pl);
        let k = treenode::root_at(pl, i);
        assert(tree_growth::tidy(v, t, hdr, k, level));
        let (w1, par1, _) = extent::child_fit(v, w, ag, par, i, level, cs, pos, stop);
        let (hdr1, k1) = tree_growth::lemma_child_fit(
            v,
            w,
            ag,
            hdr,
            par,
            i,
            level,
            k,
            cs,
            pos,
            stop,
        );
        lemma_child_marks(v, w, ag, hdr, par, i, level, k, cs, pos, stop);
        let pl1 = par1->Root_0;
        assert(par1 is Root);
        assert forall|j: int| 0 <= j < ROOT_FANOUT && j != i implies #[trigger] treenode::root_at(
            pl1,
            j,
        ) == treenode::root_at(pl, j) by {
            assert(extent::par_get(v, w1.p.t, par1, j) == extent::par_get(v, t, par, j));
        }
        tree_growth::lemma_root_part(v, t, hdr, pl, w1.p.t, hdr1, pl1, i, pos, stop, None::<int>);
        lemma_root_marks(v, w1, ag, hdr1, pl1, stop, end);
        let w2 = extent::root_fit(v, w1, ag, pl1, level, stop, end).0;
        lemma_root_join(
            v,
            t,
            hdr,
            pl,
            w1.p.t,
            hdr1,
            pl1,
            i,
            w.fresh,
            w1.fresh,
            w2.fresh,
            pos,
            stop,
            end,
        );
    }
}

/// A child of the root, and then the rest of it.
#[verifier::rlimit(40)]
proof fn lemma_root_join(
    v: Vol,
    t: Map<u64, Seq<u8>>,
    hdr: AgHeader,
    pl: Seq<u8>,
    t1: Map<u64, Seq<u8>>,
    hdr1: AgHeader,
    pl1: Seq<u8>,
    i: int,
    f0: Seq<(u64, u64)>,
    f1: Seq<(u64, u64)>,
    f2: Seq<(u64, u64)>,
    pos: int,
    stop: int,
    end: int,
)
    requires
        tree_growth::tidy_tree(v, t, hdr, pl),
        0 <= i < ROOT_FANOUT,
        0 <= pos,
        i * treenode::cover(pl[0] as int) <= pos <= stop <= end,
        stop <= i * treenode::cover(pl[0] as int) + treenode::cover(pl[0] as int),
        tree_growth::tree_grew(v, t, hdr, pl, t1, hdr1, pl1, pos, stop, None::<int>),
        marks(
            v,
            t,
            treenode::root_at(pl, i),
            pl[0] as int,
            i * treenode::cover(pl[0] as int),
            f0,
            f1,
            pos,
            stop,
        ),
        tree_marks(v, t1, pl1, f1, f2, stop, end),
    ensures
        tree_marks(v, t, pl, f0, f2, pos, end),
{
    reveal(marks);
    reveal(tree_marks);
    let c = treenode::cover(pl[0] as int);
    treenode::lemma_cover_monotonic(pl[0] as int, pl[0] as int);
    assert forall|g: int| #[trigger]
        mapping::in_some(f2, g) == (mapping::in_some(f0, g) || (pos <= g < end && hole_of(
            v,
            t,
            pl,
            g,
        ))) by {
        assert(mapping::in_some(f1, g) == mapping::in_some(f1, g));
        if pos <= g < stop {
            assert(g / c == i && g % c == g - i * c) by (nonlinear_arith)
                requires
                    c >= 1,
                    i * c <= g < i * c + c,
            ;
        } else if stop <= g < end {
            assert(tree_growth::block_grew(
                v,
                t,
                hdr,
                pl,
                t1,
                pl1,
                pos,
                stop,
                None::<int>,
                g,
            ));
            reveal(tree_growth::block_grew);
        }
    }
}

// --- runs ---------------------------------------------------------------------

/// The next edge past `f`: up to it a block is in a range as `f` is.
proof fn lemma_edge(fresh: Seq<(u64, u64)>, f: int, lim: int, k: int, g: int)
    requires
        0 <= k,
        f < lim,
        f <= g < mapping::next_edge(fresh, f, lim, k),
    ensures
        g < lim,
        forall|j: int|
            k <= j < fresh.len() ==> ((#[trigger] fresh[j]).0 <= g < fresh[j].0 + fresh[j].1) == (
            fresh[j].0 <= f < fresh[j].0 + fresh[j].1),
    decreases fresh.len() - k,
{
    if k < fresh.len() {
        let a = fresh[k].0 as int;
        let b = fresh[k].0 + fresh[k].1;
        let l1 = if f < a < lim {
            a
        } else {
            lim
        };
        let l2 = if f < b < l1 {
            b
        } else {
            l1
        };
        lemma_edge(fresh, f, l2, k + 1, g);
    }
}

/// Every run is of one kind: all of its blocks are fresh or none is.
pub open spec fn of_one_kind(r: (u64, u64, u64, bool), fresh: Seq<(u64, u64)>) -> bool {
    forall|g: int| r.0 <= g < r.0 + r.2 ==> #[trigger] mapping::in_some(fresh, g) == r.3
}

pub proof fn lemma_runs_kind(
    v: Vol,
    t: Map<u64, Seq<u8>>,
    m: Mp,
    fresh: Seq<(u64, u64)>,
    pos: int,
    end: int,
    acc: Seq<(u64, u64, u64, bool)>,
)
    requires
        0 <= pos,
        end <= u64::MAX,
        forall|i: int| 0 <= i < acc.len() ==> of_one_kind(#[trigger] acc[i], fresh),
    ensures
        mapping::runs_from(v, t, m, fresh, pos, end, acc) matches Ok(runs) ==> forall|i: int|
            0 <= i < runs.len() ==> of_one_kind(#[trigger] runs[i], fresh),
    decreases
            if pos < end {
                end - pos
            } else {
                0
            },
{
    if pos < end {
        if let Ok(Mapping::Run { blk, len }) = mapping::map_of(v, t, m, pos) {
            let lim = if len < end - pos {
                pos + len
            } else {
                end
            };
            let take = mapping::next_edge(fresh, pos, lim, 0) - pos;
            if take > 0 {
                let r = (pos as u64, blk, take as u64, mapping::in_some(fresh, pos));
                let more = acc.push(r);
                lemma_edge_bound(fresh, pos, lim, 0);
                assert(of_one_kind(r, fresh)) by {
                    assert forall|g: int| r.0 <= g < r.0 + r.2 implies #[trigger] mapping::in_some(
                        fresh,
                        g,
                    ) == r.3 by {
                        if pos < lim {
                            lemma_edge(fresh, pos, lim, 0, g);
                        }
                        lemma_same_in(fresh, pos, g);
                    }
                }
                assert forall|i: int| 0 <= i < more.len() implies of_one_kind(
                    #[trigger] more[i],
                    fresh,
                ) by {
                    if i < acc.len() {
                        assert(more[i] == acc[i]);
                    }
                }
                lemma_runs_kind(v, t, m, fresh, pos + take, end, more);
            }
        }
    }
}

proof fn lemma_edge_bound(fresh: Seq<(u64, u64)>, f: int, lim: int, k: int)
    requires
        0 <= k,
    ensures
        mapping::next_edge(fresh, f, lim, k) <= lim,
        f < lim ==> f < mapping::next_edge(fresh, f, lim, k),
    decreases fresh.len() - k,
{
    if k < fresh.len() {
        let a = fresh[k].0 as int;
        let b = fresh[k].0 + fresh[k].1;
        let l1 = if f < a < lim {
            a
        } else {
            lim
        };
        let l2 = if f < b < l1 {
            b
        } else {
            l1
        };
        lemma_edge_bound(fresh, f, l2, k + 1);
    }
}

proof fn lemma_same_in(fresh: Seq<(u64, u64)>, f: int, g: int)
    requires
        forall|j: int|
            0 <= j < fresh.len() ==> ((#[trigger] fresh[j]).0 <= g < fresh[j].0 + fresh[j].1) == (
            fresh[j].0 <= f < fresh[j].0 + fresh[j].1),
    ensures
        mapping::in_some(fresh, g) == mapping::in_some(fresh, f),
{
    if mapping::in_some(fresh, g) {
        let k = choose|k: int|
            0 <= k < fresh.len() && (#[trigger] fresh[k]).0 <= g < fresh[k].0 + fresh[k].1;
        assert(fresh[k].0 <= f < fresh[k].0 + fresh[k].1);
    }
    if mapping::in_some(fresh, f) {
        let k = choose|k: int|
            0 <= k < fresh.len() && (#[trigger] fresh[k]).0 <= f < fresh[k].0 + fresh[k].1;
        assert(fresh[k].0 <= g < fresh[k].0 + fresh[k].1);
    }
}

/// What a tree marks as fresh where it grows.
proof fn lemma_tree_marks(v: Vol, w: Work, ag: u32, hdr: AgHeader, m: Mp, f: int, n: int) -> (fresh:
    Seq<(u64, u64)>)
    requires
        v.bs >= 2048,
        m.format == FMT_TREE,
        tree_laws::settled(v, w.p.t, ag, hdr),
        tree_growth::tidy_tree(v, w.p.t, hdr, m.payload),
        0 <= f,
        0 <= n,
        f + n <= u64::MAX,
        tree_growth::steady_tree(v, w, ag, m.payload, f, n),
        extent::tree_ensured(v, w, ag, m, f, n).2 is Ok,
    ensures
        tree_marks(v, w.p.t, m.payload, w.fresh, fresh, f, f + n),
        forall|i: int|
            0 <= i < extent::tree_ensured(v, w, ag, m, f, n).2->Ok_0.len() ==> of_one_kind(
                #[trigger] extent::tree_ensured(v, w, ag, m, f, n).2->Ok_0[i],
                fresh,
            ),
{
    let p = w.p;
    let pl = m.payload;
    let (p1, pl1, _) = extent::grown_to(v, p, ag, pl, pl[0] as int, f + n);
    let hdr1 = tree_growth::lemma_grown_to(v, p, ag, hdr, pl, f + n, f);
    let w1 = Work { p: p1, ..w };
    lemma_root_marks(v, w1, ag, hdr1, pl1, f, f + n);
    let (w2, pl2, _) = extent::root_fit(v, w1, ag, pl1, pl1[0] as int, f, f + n);
    let fresh = w2.fresh;
    assert(tree_marks(v, p.t, pl, w.fresh, fresh, f, f + n)) by {
        reveal(tree_marks);
        assert forall|g: int| #[trigger]
            mapping::in_some(fresh, g) == (mapping::in_some(w.fresh, g) || (f <= g < f + n
                && hole_of(v, p.t, pl, g))) by {
            if f <= g < f + n {
                assert(tree_growth::block_grew(
                    v,
                    p.t,
                    hdr,
                    pl,
                    p1.t,
                    pl1,
                    f,
                    f,
                    None::<int>,
                    g,
                ));
                reveal(tree_growth::block_grew);
            }
        }
    }
    lemma_runs_kind(
        v,
        w2.p.t,
        Mp { payload: pl2, ..m },
        fresh,
        f,
        f + n,
        Seq::empty(),
    );
    fresh
}

/// Growing a file with a tree: a run is marked as fresh exactly if the file did not
/// have its blocks before; no run has blocks of both kinds.
pub proof fn law_fresh_runs_of_a_tree_are_new(
    v: Vol,
    p: Pool,
    ag: u32,
    hdr: AgHeader,
    m: Mp,
    f: int,
    n: int,
    i: int,
    g: int,
)
    requires
        v.bs >= 2048,
        m.format == FMT_TREE,
        tree_laws::settled(v, p.t, ag, hdr),
        tree_growth::tidy_tree(v, p.t, hdr, m.payload),
        0 <= f,
        0 <= n,
        tree_growth::steady_tree(v, Work { p, fresh: Seq::empty() }, ag, m.payload, f, n),
        extent::ensured(v, p, ag, m, f, n).2 is Ok,
        0 <= i < extent::ensured(v, p, ag, m, f, n).2->Ok_0.len(),
        ({
            let r = extent::ensured(v, p, ag, m, f, n).2->Ok_0[i];
            r.0 <= g < r.0 + r.2 && f <= g < f + n
        }),
    ensures
        extent::ensured(v, p, ag, m, f, n).2->Ok_0[i].3 == (tree_laws::address(
            mapping::tree_map(v, p.t, m.payload, g),
        ) is None),
{
    let w = Work { p, fresh: Seq::empty() };
    let runs = extent::ensured(v, p, ag, m, f, n).2->Ok_0;
    let fresh = lemma_tree_marks(v, w, ag, hdr, m, f, n);
    assert(of_one_kind(runs[i], fresh));
    assert(mapping::in_some(fresh, g) == runs[i].3);
    reveal(tree_marks);
    assert(mapping::in_some(fresh, g) == (mapping::in_some(w.fresh, g) || hole_of(
        v,
        p.t,
        m.payload,
        g,
    )));
    assert(!mapping::in_some(w.fresh, g));
}

// --- inline extents -----------------------------------------------------------

/// The blocks of `lo` to `hi` that `es` does not map and `end` does, and no others,
/// joined the fresh ones.
#[verifier::opaque]
spec fn inline_marks(
    es: Seq<Extent>,
    last: Seq<Extent>,
    old: Seq<(u64, u64)>,
    new: Seq<(u64, u64)>,
    lo: int,
    hi: int,
) -> bool {
    &&& forall|g: int| #[trigger]
        mapping::in_some(new, g) == (mapping::in_some(old, g) || (lo <= g < hi
            && !mapping_laws::mapped(es, g) && mapping_laws::mapped(last, g)))
    &&& forall|g: int| mapping_laws::mapped(es, g) ==> #[trigger] mapping_laws::mapped(last, g)
}

/// Nothing joins where nothing grows.
proof fn lemma_no_marks(es: Seq<Extent>, fresh: Seq<(u64, u64)>, lo: int, hi: int)
    ensures
        inline_marks(es, es, fresh, fresh, lo, hi),
{
    reveal(inline_marks);
}

/// What one step marks as fresh.
#[verifier::rlimit(40)]
proof fn lemma_step_marks(
    v: Vol,
    w: Work,
    ag: u32,
    hdr: AgHeader,
    es: Seq<Extent>,
    pos: int,
    end: int,
)
    requires
        mapping_laws::grows_from(v, w.p, ag, hdr, es),
        0 <= pos < end <= u64::MAX,
    ensures
        ({
            let (w1, es1, r1) = extent::inline_step(v, w, ag, es, pos, end);
            r1 matches Ok(Some(next)) ==> {
                &&& pos < next <= end
                &&& inline_marks(es, es1, w.fresh, w1.fresh, pos, next)
                &&& forall|g: int| #[trigger]
                    mapping_laws::mapped(es1, g) == (mapping_laws::mapped(es, g) || pos <= g < next)
            }
        }),
{
    reveal(extent::inline_step);
    reveal(inline_marks);
    mapping_laws::lemma_covering(es, pos, 0);
    let (w1, es1, r1) = extent::inline_step(v, w, ag, es, pos, end);
    match extent::covering(es, pos, 0) {
        Some(e) => {
            let far = e.file_block + e.blocks;
            let next = if far < end { far } else { end };
            let k = choose|k: int| 0 <= k < es.len() && es[k] == e;
            assert forall|g: int| pos <= g < next implies #[trigger] mapping_laws::mapped(es, g) by {
                let a = e.blk + (g - e.file_block);
                assert(mapping_laws::leads(es[k], g, a));
                assert(mapping_laws::maps(es, g, a));
            }
        },
        None => {
            let next = extent::next_mapped(es, pos, end, 0);
            mapping_laws::lemma_next_mapped(es, pos, end, 0);
            let n = next - pos;
            let (p1, r2) = allocator::allocated(v, w.p, ag, n);
            if r2 is Ok {
                let blk = r2->Ok_0;
                let _ = mapping_laws::lemma_alloc_grows(v, w.p, ag, hdr, n);
                assert forall|k: int| 0 <= k < es.len() implies (#[trigger] es[k]).file_block
                    + es[k].blocks <= pos || es[k].file_block >= pos + n by {
                    assert(!mapping::covers(es[k], pos));
                    assert(mapping_laws::extent_ok(es[k]));
                }
                mapping_laws::lemma_with_run(es, pos, blk, n);
                if extent::with_run(es, pos, blk, n) is Ok {
                    assert forall|g: int| #[trigger]
                        mapping_laws::mapped(es1, g) == (mapping_laws::mapped(es, g) || pos <= g
                            < next) by {
                        if mapping_laws::mapped(es1, g) {
                            let a = choose|a: int| #[trigger] mapping_laws::maps(es1, g, a);
                            assert(mapping_laws::maps(es1, g, a));
                        }
                        if mapping_laws::mapped(es, g) {
                            let a = choose|a: int| #[trigger] mapping_laws::maps(es, g, a);
                            assert(mapping_laws::maps(es1, g, a));
                        }
                        if pos <= g < next {
                            assert(mapping_laws::maps(es1, g, blk + (g - pos)));
                        }
                    }
                    assert forall|g: int| pos <= g < next implies !(#[trigger] mapping_laws::mapped(
                        es,
                        g,
                    )) by {
                        if mapping_laws::mapped(es, g) {
                            let a = choose|a: int| #[trigger] mapping_laws::maps(es, g, a);
                            let k = choose|k: int|
                                0 <= k < es.len() && #[trigger] mapping_laws::leads(es[k], g, a);
                            assert(mapping::covers(es[k], g));
                        }
                    }
                    assert forall|g: int| #[trigger]
                        mapping::in_some(w1.fresh, g) == (mapping::in_some(w.fresh, g) || (pos <= g
                            < next && !mapping_laws::mapped(es, g) && mapping_laws::mapped(
                            es1,
                            g,
                        ))) by {
                        lemma_in_more(w.fresh, pos as u64, n as u64, g);
                    }
                }
            }
        },
    }
}

/// A tree that was made of extents has their holes.
proof fn lemma_treed_holes(v: Vol, p: Pool, ag: u32, hdr: AgHeader, m: Mp, es: Seq<Extent>)
    requires
        v.bs >= 2048,
        mapping_laws::grows_from(v, p, ag, hdr, es),
        extent::treed(v, p, ag, m, es).2 is Ok,
    ensures
        ({
            let (p1, m1, _) = extent::treed(v, p, ag, m, es);
            forall|g: int|
                0 <= g ==> #[trigger] hole_of(v, p1.t, m1.payload, g) == !mapping_laws::mapped(es, g)
        }),
{
    let (p1, m1, _) = extent::treed(v, p, ag, m, es);
    let _ = tree_turn::lemma_treed(v, p, ag, hdr, m, es);
    reveal(tree_turn::turned);
    assert forall|g: int| 0 <= g implies #[trigger] hole_of(v, p1.t, m1.payload, g)
        == !mapping_laws::mapped(es, g) by {
        if mapping_laws::mapped(es, g) {
            let a = choose|a: int| #[trigger] mapping_laws::maps(es, g, a);
            assert(mapping_laws::maps(es, g, a));
        }
        let m2 = mapping::tree_map(v, p1.t, m1.payload, g);
        if tree_laws::address(m2) is Some {
            assert(mapping_laws::maps(es, g, tree_laws::address(m2)->Some_0 as int));
        }
    }
}

/// What inline extents mark as fresh where they grow, and the extents that they end
/// as.
#[verifier::rlimit(40)]
#[verifier::spinoff_prover]
proof fn lemma_inline_marks(
    v: Vol,
    w: Work,
    ag: u32,
    hdr: AgHeader,
    m: Mp,
    es: Seq<Extent>,
    pos: int,
    end: int,
) -> (last: Seq<Extent>)
    requires
        mapping_laws::grows_from(v, w.p, ag, hdr, es),
        0 <= pos <= end <= u64::MAX,
        m.format == FMT_EXTENT,
        extent::inline_fit(v, w, ag, m, es, pos, end).2 is Ok,
        extent::inline_fit(v, w, ag, m, es, pos, end).1.format == FMT_TREE ==> v.bs >= 2048
            && tree_turn::steady_inline(v, w, ag, es, pos, end),
    ensures
        ({
            let (w1, m1, _) = extent::inline_fit(v, w, ag, m, es, pos, end);
            &&& inline_marks(es, last, w.fresh, w1.fresh, pos, end)
            &&& m1.format == FMT_EXTENT ==> forall|g: int|
                pos <= g < end ==> #[trigger] mapping_laws::mapped(last, g)
            &&& m1.format == FMT_TREE ==> forall|g: int|
                0 <= g ==> #[trigger] hole_of(v, w1.p.t, m1.payload, g) == !mapping_laws::mapped(
                    last,
                    g,
                )
        }),
    decreases end - pos,
{
    let (w9, m9, _) = extent::inline_fit(v, w, ag, m, es, pos, end);
    if pos >= end {
        lemma_no_marks(es, w.fresh, pos, end);
        if es.len() > MAX_INLINE_EXTENTS {
            mapping_laws::lemma_treed_format(v, w.p, ag, m, es);
            lemma_treed_holes(v, w.p, ag, hdr, m, es);
        }
        es
    } else {
        let (w1, es1, r1) = extent::inline_step(v, w, ag, es, pos, end);
        if r1 matches Ok(None) {
            let n = extent::next_mapped(es, pos, end, 0) - pos;
            assert(es1 == es && w1.fresh == w.fresh && w1.p == allocator::allocated(v, w.p, ag, n).0
                && allocator::allocated(v, w.p, ag, n).1 is Err) by {
                reveal(extent::inline_step);
            }
            mapping_laws::lemma_treed_format(v, w1.p, ag, m, es);
            tree_turn::lemma_grows_still(v, w.p, ag, hdr, es, w1.p);
            lemma_treed_holes(v, w1.p, ag, hdr, m, es);
            lemma_no_marks(es, w.fresh, pos, end);
            es
        } else {
            let next = r1->Ok_0->Some_0;
            let hdr1 = mapping_laws::lemma_inline_step(v, w, ag, hdr, es, pos, end);
            lemma_step_marks(v, w, ag, hdr, es, pos, end);
            let last = lemma_inline_marks(v, w1, ag, hdr1, m, es1, next, end);
            lemma_inline_join(es, es1, last, w.fresh, w1.fresh, w9.fresh, pos, next, end);
            assert forall|g: int|
                m9.format == FMT_EXTENT && pos <= g < end implies #[trigger] mapping_laws::mapped(
                last,
                g,
            ) by {
                if g < next {
                    assert(mapping_laws::mapped(es1, g));
                    reveal(inline_marks);
                }
            }
            last
        }
    }
}

/// A step, and then the rest.
proof fn lemma_inline_join(
    es: Seq<Extent>,
    es1: Seq<Extent>,
    last: Seq<Extent>,
    f0: Seq<(u64, u64)>,
    f1: Seq<(u64, u64)>,
    f2: Seq<(u64, u64)>,
    pos: int,
    next: int,
    end: int,
)
    requires
        pos <= next <= end,
        inline_marks(es, es1, f0, f1, pos, next),
        inline_marks(es1, last, f1, f2, next, end),
        forall|g: int| #[trigger]
            mapping_laws::mapped(es1, g) == (mapping_laws::mapped(es, g) || pos <= g < next),
    ensures
        inline_marks(es, last, f0, f2, pos, end),
{
    reveal(inline_marks);
    assert forall|g: int| #[trigger]
        mapping::in_some(f2, g) == (mapping::in_some(f0, g) || (pos <= g < end
            && !mapping_laws::mapped(es, g) && mapping_laws::mapped(last, g))) by {
        assert(mapping::in_some(f1, g) == mapping::in_some(f1, g));
        assert(mapping_laws::mapped(es1, g) ==> mapping_laws::mapped(last, g));
    }
    assert forall|g: int| mapping_laws::mapped(es, g) implies #[trigger] mapping_laws::mapped(
        last,
        g,
    ) by {
        assert(mapping_laws::mapped(es1, g));
    }
}

/// Growing a file with inline extents, which may turn into one with a tree: a run is
/// marked as fresh exactly if the file did not have its blocks before; no run has
/// blocks of both kinds.
#[verifier::rlimit(40)]
pub proof fn law_fresh_runs_of_extents_are_new(
    v: Vol,
    p: Pool,
    ag: u32,
    hdr: AgHeader,
    m: Mp,
    f: int,
    n: int,
    i: int,
    g: int,
)
    requires
        m.format == FMT_EXTENT,
        mapping_laws::grows_from(v, p, ag, hdr, inode::extents_of(m.payload)),
        0 <= f,
        0 <= n,
        extent::ensured(v, p, ag, m, f, n).1.format == FMT_TREE ==> v.bs >= 2048
            && tree_turn::steady_file(v, p, ag, m, f, n),
        extent::ensured(v, p, ag, m, f, n).2 is Ok,
        0 <= i < extent::ensured(v, p, ag, m, f, n).2->Ok_0.len(),
        ({
            let r = extent::ensured(v, p, ag, m, f, n).2->Ok_0[i];
            r.0 <= g < r.0 + r.2 && f <= g < f + n
        }),
    ensures
        extent::ensured(v, p, ag, m, f, n).2->Ok_0[i].3 == !mapping_laws::mapped(
            inode::extents_of(m.payload),
            g,
        ),
{
    let w = Work { p, fresh: Seq::empty() };
    let es = inode::extents_of(m.payload);
    let runs = extent::ensured(v, p, ag, m, f, n).2->Ok_0;
    let (w1, m1, _) = extent::inline_fit(v, w, ag, m, es, f, f + n);
    tree_turn::lemma_fit_format(v, w, ag, m, es, f, f + n);
    let last = lemma_inline_marks(v, w, ag, hdr, m, es, f, f + n);
    assert(!mapping::in_some(w.fresh, g));
    if m1.format == FMT_EXTENT {
        lemma_runs_kind(v, w1.p.t, m1, w1.fresh, f, f + n, Seq::empty());
        assert(of_one_kind(runs[i], w1.fresh));
        assert(mapping::in_some(w1.fresh, g) == runs[i].3);
        assert(mapping_laws::mapped(last, g));
        reveal(inline_marks);
    } else {
        let hdr1 = tree_turn::lemma_inline_turned(v, w, ag, hdr, m, es, f, f + n);
        let fresh = lemma_tree_marks(v, w1, ag, hdr1, m1, f, n);
        assert(of_one_kind(runs[i], fresh));
        assert(mapping::in_some(fresh, g) == runs[i].3);
        reveal(tree_marks);
        reveal(inline_marks);
        assert(mapping::in_some(fresh, g) == (mapping::in_some(w1.fresh, g) || hole_of(
            v,
            w1.p.t,
            m1.payload,
            g,
        )));
        assert(hole_of(v, w1.p.t, m1.payload, g) == !mapping_laws::mapped(last, g));
        assert(mapping::in_some(w1.fresh, g) == mapping::in_some(w1.fresh, g));
        assert(mapping_laws::mapped(es, g) ==> mapping_laws::mapped(last, g));
    }
}

} // verus!
