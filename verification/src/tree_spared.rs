//! What cutting or freeing a file with an extent tree leaves alone: the blocks that
//! share no smallest cell with one that the tree gives up.

use crate::allocator::Pool;
use crate::fmt::{CELL_FREE, CELL_FULL, CELL_REFINED, FMT_TREE, ROOT_FANOUT};
use crate::header::AgHeader;
use crate::mapping::Mp;
use crate::treenode::Child;
use crate::vol::Vol;
use vstd::prelude::*;

use crate::allocator;
use crate::fmt;
use crate::frees;
use crate::let_go;
use crate::roottable;
use crate::tables;
use crate::tree_cut;
use crate::tree_growth;
use crate::tree_laws;
use crate::treenode;
use crate::truncate;
use crate::truncate_laws;
use crate::vol;

verus! {

// --- what a cut reaches -------------------------------------------------------

/// Block `x` is a node below the child, or a block of one of its runs at or behind
/// offset `lim` of what the child covers.
pub open spec fn behind(
    v: Vol,
    t: Map<u64, Seq<u8>>,
    ch: Child,
    level: int,
    lim: int,
    x: u64,
) -> bool
    decreases level,
{
    if ch.st == CELL_FREE {
        false
    } else if ch.st == CELL_FULL {
        ch.addr <= x < ch.addr + ch.blocks && x >= ch.addr + lim
    } else {
        &&& ch.st == CELL_REFINED
        &&& level > 0
        &&& (x == ch.addr || exists|j: int|
            0 <= j < 64 && behind(
                v,
                t,
                #[trigger] tree_growth::kid(v, t, ch, level, j),
                level - 1,
                lim - j * treenode::cover(level - 1),
                x,
            ))
    }
}

/// The blocks, by their number in the group, that a cut of the child at `lim` reaches.
pub open spec fn tail_of(v: Vol, t: Map<u64, Seq<u8>>, ch: Child, level: int, lim: int) -> Set<int> {
    Set::new(
        |b: int|
            exists|x: u64|
                #[trigger] behind(v, t, ch, level, lim, x) && b == fmt::addr_local(x),
    )
}

/// Block `x` is reached where the children from `i` on are cut at `lim`.
pub open spec fn behind_one(
    v: Vol,
    t: Map<u64, Seq<u8>>,
    ks: Seq<Child>,
    level: int,
    i: int,
    lim: int,
    x: u64,
) -> bool {
    exists|j: int|
        i <= j < ks.len() && behind(
            v,
            t,
            #[trigger] ks[j],
            level,
            lim - j * treenode::cover(level),
            x,
        )
}

/// The blocks that a cut of the children from `i` on at `lim` reaches.
pub open spec fn tails_of(
    v: Vol,
    t: Map<u64, Seq<u8>>,
    ks: Seq<Child>,
    level: int,
    i: int,
    lim: int,
) -> Set<int> {
    Set::new(
        |b: int|
            exists|x: u64|
                #[trigger] behind_one(v, t, ks, level, i, lim, x) && b == fmt::addr_local(x),
    )
}

/// The blocks of a file with the root `pl` that a cut at `cutoff` can reach: the nodes
/// of its tree, and the blocks that it maps at or behind the cut.
pub open spec fn tree_tail(v: Vol, t: Map<u64, Seq<u8>>, pl: Seq<u8>, cutoff: int) -> Set<int> {
    tails_of(v, t, tree_cut::root_kids(pl), pl[0] as int, 0, cutoff)
}

/// Where the nodes below a child hold what they held, the same blocks are reached.
proof fn lemma_behind_kept(
    v: Vol,
    t: Map<u64, Seq<u8>>,
    t1: Map<u64, Seq<u8>>,
    ch: Child,
    level: int,
    lim: int,
    x: u64,
)
    requires
        tree_growth::same_below(v, t, t1, ch, level),
        behind(v, t1, ch, level, lim, x),
    ensures
        behind(v, t, ch, level, lim, x),
    decreases level,
{
    if ch.st == CELL_REFINED && x != ch.addr {
        let c = treenode::cover(level - 1);
        let j = choose|j: int|
            0 <= j < 64 && behind(
                v,
                t1,
                #[trigger] tree_growth::kid(v, t1, ch, level, j),
                level - 1,
                lim - j * c,
                x,
            );
        tree_growth::lemma_same_kid(v, t, t1, ch, level, j);
        let k = tree_growth::kid(v, t, ch, level, j);
        lemma_behind_kept(v, t, t1, k, level - 1, lim - j * c, x);
    }
}

/// The same of children side by side.
proof fn lemma_tails_kept(
    v: Vol,
    t: Map<u64, Seq<u8>>,
    ks: Seq<Child>,
    t1: Map<u64, Seq<u8>>,
    ks1: Seq<Child>,
    level: int,
    i: int,
    lim: int,
)
    requires
        0 <= i,
        ks1.len() == ks.len(),
        forall|j: int| i + 1 <= j < ks.len() ==> #[trigger] ks1[j] == ks[j],
        forall|j: int|
            i + 1 <= j < ks.len() ==> tree_growth::same_below(v, t, t1, #[trigger] ks[j], level),
    ensures
        forall|b: int| #[trigger]
            tails_of(v, t1, ks1, level, i + 1, lim).contains(b) ==> tails_of(
                v,
                t,
                ks,
                level,
                i,
                lim,
            ).contains(b),
{
    let c = treenode::cover(level);
    assert forall|b: int| #[trigger]
        tails_of(v, t1, ks1, level, i + 1, lim).contains(b) implies tails_of(
        v,
        t,
        ks,
        level,
        i,
        lim,
    ).contains(b) by {
        let x = choose|x: u64|
            #[trigger] behind_one(v, t1, ks1, level, i + 1, lim, x) && b == fmt::addr_local(x);
        let j = choose|j: int|
            i + 1 <= j < ks1.len() && behind(v, t1, #[trigger] ks1[j], level, lim - j * c, x);
        assert(ks1[j] == ks[j]);
        lemma_behind_kept(v, t, t1, ks[j], level, lim - j * c, x);
        assert(behind_one(v, t, ks, level, i, lim, x));
    }
}

/// What child `i` gives up is among what the children from `i` on give up.
proof fn lemma_tail_in(
    v: Vol,
    t: Map<u64, Seq<u8>>,
    ks: Seq<Child>,
    level: int,
    i: int,
    lim: int,
)
    requires
        0 <= i < ks.len(),
    ensures
        forall|b: int| #[trigger]
            tail_of(v, t, ks[i], level, lim - i * treenode::cover(level)).contains(b) ==> tails_of(
                v,
                t,
                ks,
                level,
                i,
                lim,
            ).contains(b),
{
    let c = treenode::cover(level);
    assert forall|b: int| #[trigger]
        tail_of(v, t, ks[i], level, lim - i * c).contains(b) implies tails_of(
        v,
        t,
        ks,
        level,
        i,
        lim,
    ).contains(b) by {
        let x = choose|x: u64|
            #[trigger] behind(v, t, ks[i], level, lim - i * c, x) && b == fmt::addr_local(x);
        assert(behind_one(v, t, ks, level, i, lim, x));
    }
}

/// What the children of a node give up, and the node itself, are among what a child
/// gives up that stands for the node.
proof fn lemma_tails_up(v: Vol, t: Map<u64, Seq<u8>>, ch: Child, level: int, lim: int)
    requires
        ch.st == CELL_REFINED,
        level > 0,
    ensures
        ({
            let b = treenode::node_level_of(v, t, ch.addr, level - 1)->Ok_0;
            let d = tail_of(v, t, ch, level, lim);
            &&& d.contains(fmt::addr_local(ch.addr) as int)
            &&& forall|l: int| #[trigger]
                tails_of(v, t, tree_cut::kids(b), level - 1, 0, lim).contains(l) ==> d.contains(l)
        }),
{
    let b = treenode::node_level_of(v, t, ch.addr, level - 1)->Ok_0;
    let ks = tree_cut::kids(b);
    let c = treenode::cover(level - 1);
    let d = tail_of(v, t, ch, level, lim);
    assert(behind(v, t, ch, level, lim, ch.addr));
    assert forall|l: int| #[trigger]
        tails_of(v, t, ks, level - 1, 0, lim).contains(l) implies d.contains(l) by {
        let x = choose|x: u64|
            #[trigger] behind_one(v, t, ks, level - 1, 0, lim, x) && l == fmt::addr_local(x);
        let j = choose|j: int|
            0 <= j < ks.len() && behind(v, t, #[trigger] ks[j], level - 1, lim - j * c, x);
        assert(ks[j] == tree_growth::kid(v, t, ch, level, j));
        assert(behind(v, t, ch, level, lim, x));
    }
}

/// The blocks of a run from `from` on are among what a child gives up that maps it.
proof fn lemma_run_in(v: Vol, t: Map<u64, Seq<u8>>, hdr: AgHeader, ch: Child, level: int, lim: int, from: int)
    requires
        ch.st == CELL_FULL,
        tree_cut::span_here(hdr, ch.addr, ch.blocks as int),
        0 <= from,
        lim <= from,
    ensures
        forall|b: int| #[trigger]
            let_go::span(
                fmt::addr_local(ch.addr) + from,
                fmt::addr_local(ch.addr) + ch.blocks,
            ).contains(b) ==> tail_of(v, t, ch, level, lim).contains(b),
{
    let lo = fmt::addr_local(ch.addr) as int;
    assert(tables::block_count(hdr) <= 0x1_0000_0000) by {
        fmt::lemma_ceil_div(hdr.length as int, 256);
    }
    assert forall|b: int| #[trigger]
        let_go::span(lo + from, lo + ch.blocks).contains(b) implies tail_of(
        v,
        t,
        ch,
        level,
        lim,
    ).contains(b) by {
        let x = ch.addr + (b - lo);
        tree_laws::lemma_run_address(ch.addr, ch.blocks as int, x);
        assert(behind(v, t, ch, level, lim, x as u64));
    }
}

/// Freeing the `n` blocks from `addr` on, all of them in `d`.
proof fn lemma_freed_in(v: Vol, p: Pool, hdr: AgHeader, addr: u64, n: int, d: Set<int>)
    requires
        0 <= n,
        tree_laws::settled(v, p.t, hdr.ag_num, hdr),
        tree_cut::span_here(hdr, addr, n),
        allocator::freed(v, p, addr, n).1 is Ok,
        forall|b: int| #[trigger]
            let_go::span(fmt::addr_local(addr) as int, fmt::addr_local(addr) + n).contains(b)
                ==> d.contains(b),
    ensures
        let_go::let_go(v, p.t, hdr, allocator::freed(v, p, addr, n).0.t, d),
{
    let lo = fmt::addr_local(addr) as int;
    let_go::lemma_run_let_go(v, p, addr, hdr, n);
    let_go::lemma_let_go_more(
        v,
        p.t,
        hdr,
        allocator::freed(v, p, addr, n).0.t,
        let_go::span(lo, lo + n),
        d,
    );
}

// --- freeing ------------------------------------------------------------------

/// Freeing what a child maps.
proof fn lemma_child_freed(v: Vol, p: Pool, hdr: AgHeader, ch: Child, level: int, lim: int)
    requires
        lim <= 0,
        tree_laws::settled(v, p.t, hdr.ag_num, hdr),
        tree_cut::within(v, p.t, hdr, ch, level),
        truncate::child_freed(v, p, ch, level).1 is Ok,
    ensures
        let_go::let_go(
            v,
            p.t,
            hdr,
            truncate::child_freed(v, p, ch, level).0.t,
            tail_of(v, p.t, ch, level, lim),
        ),
    decreases level, 1int, 0int,
{
    let d = tail_of(v, p.t, ch, level, lim);
    if ch.st == CELL_FREE {
        let_go::lemma_let_go_none(v, p.t, hdr, d);
    } else if ch.st == CELL_FULL {
        lemma_run_in(v, p.t, hdr, ch, level, lim, 0);
        let lo = fmt::addr_local(ch.addr) as int;
        assert(let_go::span(lo + 0, lo + ch.blocks) == let_go::span(lo, lo + ch.blocks));
        lemma_freed_in(v, p, hdr, ch.addr, ch.blocks as int, d);
    } else {
        let b = treenode::node_level_of(v, p.t, ch.addr, level - 1)->Ok_0;
        let ks = tree_cut::kids(b);
        assert forall|j: int| 0 <= j < 64 implies tree_cut::within(
            v,
            p.t,
            hdr,
            #[trigger] treenode::node_at(b, j),
            level - 1,
        ) by {
            assert(tree_cut::within(
                v,
                p.t,
                hdr,
                tree_growth::kid(v, p.t, ch, level, j),
                level - 1,
            ));
        }
        let hdr1 = tree_cut::lemma_children_freed(v, p, hdr, b, level - 1, 0, 0);
        let p1 = truncate::children_freed(v, p, b, level - 1, 0, 0).0;
        lemma_children_freed(v, p, hdr, b, level - 1, 0, 0, lim);
        lemma_tails_up(v, p.t, ch, level, lim);
        let_go::lemma_let_go_more(
            v,
            p.t,
            hdr,
            p1.t,
            tails_of(v, p.t, ks, level - 1, 0, lim),
            d,
        );
        lemma_freed_in(v, p1, hdr1, ch.addr, 1, d);
        let p2 = allocator::freed(v, p1, ch.addr, 1).0;
        let_go::lemma_let_go_twice(v, p.t, hdr, p1.t, hdr1, p2.t, d);
    }
}

/// Freeing what the children of a node map.
proof fn lemma_children_freed(
    v: Vol,
    p: Pool,
    hdr: AgHeader,
    b: Seq<u8>,
    level: int,
    i: int,
    acc: int,
    lim: int,
)
    requires
        lim <= 0,
        0 <= level,
        tree_laws::settled(v, p.t, hdr.ag_num, hdr),
        0 <= i,
        forall|j: int|
            i <= j < 64 ==> tree_cut::within(v, p.t, hdr, #[trigger] treenode::node_at(b, j), level),
        truncate::children_freed(v, p, b, level, i, acc).1 is Ok,
    ensures
        let_go::let_go(
            v,
            p.t,
            hdr,
            truncate::children_freed(v, p, b, level, i, acc).0.t,
            tails_of(v, p.t, tree_cut::kids(b), level, i, lim),
        ),
    decreases level, 2int, 64 - i,
{
    let ks = tree_cut::kids(b);
    let d = tails_of(v, p.t, ks, level, i, lim);
    if i >= 64 {
        let_go::lemma_let_go_none(v, p.t, hdr, d);
    } else {
        let c = treenode::cover(level);
        let ch = treenode::node_at(b, i);
        assert(ks[i] == ch);
        assert(lim - i * c <= 0) by {
            treenode::lemma_cover_monotonic(level, level);
            assert(i * c >= 0) by (nonlinear_arith)
                requires
                    i >= 0,
                    c >= 0,
            ;
        }
        let hdr1 = tree_cut::lemma_child_freed(v, p, hdr, ch, level);
        lemma_child_freed(v, p, hdr, ch, level, lim - i * c);
        let (p1, r1) = truncate::child_freed(v, p, ch, level);
        lemma_tail_in(v, p.t, ks, level, i, lim);
        let_go::lemma_let_go_more(
            v,
            p.t,
            hdr,
            p1.t,
            tail_of(v, p.t, ch, level, lim - i * c),
            d,
        );
        assert forall|j: int| i + 1 <= j < 64 implies tree_cut::within(
            v,
            p1.t,
            hdr1,
            #[trigger] treenode::node_at(b, j),
            level,
        ) by {
            tree_cut::lemma_within_calm(v, p.t, hdr, p1.t, hdr1, treenode::node_at(b, j), level);
        }
        assert forall|j: int| i + 1 <= j < ks.len() implies tree_growth::same_below(
            v,
            p.t,
            p1.t,
            #[trigger] ks[j],
            level,
        ) by {
            lemma_calm_below(v, p.t, hdr, p1.t, hdr1, ks[j], level);
        }
        let sum = acc + r1->Ok_0;
        lemma_children_freed(v, p1, hdr1, b, level, i + 1, sum, lim);
        let p2 = truncate::children_freed(v, p1, b, level, i + 1, sum).0;
        lemma_tails_kept(v, p.t, ks, p1.t, ks, level, i, lim);
        let_go::lemma_let_go_more(
            v,
            p1.t,
            hdr1,
            p2.t,
            tails_of(v, p1.t, ks, level, i + 1, lim),
            d,
        );
        let_go::lemma_let_go_twice(v, p.t, hdr, p1.t, hdr1, p2.t, d);
    }
}

/// Freeing leaves the nodes below a child inside the group alone.
proof fn lemma_calm_below(
    v: Vol,
    t: Map<u64, Seq<u8>>,
    hdr: AgHeader,
    t1: Map<u64, Seq<u8>>,
    hdr1: AgHeader,
    ch: Child,
    level: int,
)
    requires
        tree_cut::within(v, t, hdr, ch, level),
        tree_cut::calm(v, t, hdr, t1, hdr1),
    ensures
        tree_growth::same_below(v, t, t1, ch, level),
{
    assert forall|x: u64| #[trigger] tree_growth::below(v, t, ch, level, x) implies vol::rd(v, t1, x)
        == vol::rd(v, t, x) by {
        tree_cut::lemma_below_idle(v, t, hdr, ch, level, x);
    }
}

/// Freeing what the children of a root map.
proof fn lemma_root_freed(v: Vol, p: Pool, hdr: AgHeader, pl: Seq<u8>, i: int)
    requires
        tree_laws::settled(v, p.t, hdr.ag_num, hdr),
        0 <= i,
        forall|j: int|
            i <= j < ROOT_FANOUT ==> tree_cut::within(
                v,
                p.t,
                hdr,
                #[trigger] treenode::root_at(pl, j),
                pl[0] as int,
            ),
        truncate::root_freed(v, p, pl, i).1 is Ok,
    ensures
        let_go::let_go(
            v,
            p.t,
            hdr,
            truncate::root_freed(v, p, pl, i).0.t,
            tails_of(v, p.t, tree_cut::root_kids(pl), pl[0] as int, i, 0),
        ),
    decreases ROOT_FANOUT - i,
{
    let level = pl[0] as int;
    let ks = tree_cut::root_kids(pl);
    let d = tails_of(v, p.t, ks, level, i, 0);
    if i >= ROOT_FANOUT {
        let_go::lemma_let_go_none(v, p.t, hdr, d);
    } else {
        let c = treenode::cover(level);
        let ch = treenode::root_at(pl, i);
        assert(ks[i] == ch);
        assert(0 - i * c <= 0) by {
            treenode::lemma_cover_monotonic(level, level);
            assert(i * c >= 0) by (nonlinear_arith)
                requires
                    i >= 0,
                    c >= 0,
            ;
        }
        let hdr1 = tree_cut::lemma_child_freed(v, p, hdr, ch, level);
        lemma_child_freed(v, p, hdr, ch, level, 0 - i * c);
        let p1 = truncate::child_freed(v, p, ch, level).0;
        lemma_tail_in(v, p.t, ks, level, i, 0);
        let_go::lemma_let_go_more(v, p.t, hdr, p1.t, tail_of(v, p.t, ch, level, 0 - i * c), d);
        assert forall|j: int| i + 1 <= j < ROOT_FANOUT implies tree_cut::within(
            v,
            p1.t,
            hdr1,
            #[trigger] treenode::root_at(pl, j),
            level,
        ) by {
            tree_cut::lemma_within_calm(v, p.t, hdr, p1.t, hdr1, treenode::root_at(pl, j), level);
        }
        assert forall|j: int| i + 1 <= j < ks.len() implies tree_growth::same_below(
            v,
            p.t,
            p1.t,
            #[trigger] ks[j],
            level,
        ) by {
            assert(tree_cut::within(v, p.t, hdr, treenode::root_at(pl, j), level));
            lemma_calm_below(v, p.t, hdr, p1.t, hdr1, ks[j], level);
        }
        lemma_root_freed(v, p1, hdr1, pl, i + 1);
        let p2 = truncate::root_freed(v, p1, pl, i + 1).0;
        lemma_tails_kept(v, p.t, ks, p1.t, ks, level, i, 0);
        let_go::lemma_let_go_more(v, p1.t, hdr1, p2.t, tails_of(v, p1.t, ks, level, i + 1, 0), d);
        let_go::lemma_let_go_twice(v, p.t, hdr, p1.t, hdr1, p2.t, d);
    }
}

/// Freeing a file with an extent tree.
pub proof fn lemma_tree_freed(v: Vol, p: Pool, hdr: AgHeader, m: Mp)
    requires
        m.format == FMT_TREE,
        tree_laws::settled(v, p.t, hdr.ag_num, hdr),
        tree_cut::tree_within(v, p.t, hdr, m.payload),
        truncate::all_freed(v, p, m).1 is Ok,
    ensures
        forall|x: int|
            0 <= x < tables::block_count(hdr) && !let_go::near(
                v,
                p.t,
                hdr,
                tree_tail(v, p.t, m.payload, 0),
                x,
            ) ==> #[trigger] tables::block_state(v, truncate::all_freed(v, p, m).0.t, hdr, x)
                == tables::block_state(v, p.t, hdr, x),
{
    let t1 = truncate::all_freed(v, p, m).0.t;
    lemma_root_freed(v, p, hdr, m.payload, 0);
    let d = tree_tail(v, p.t, m.payload, 0);
    assert forall|x: int|
        0 <= x < tables::block_count(hdr) && !let_go::near(
            v,
            p.t,
            hdr,
            d,
            x,
        ) implies #[trigger] tables::block_state(v, t1, hdr, x) == tables::block_state(
        v,
        p.t,
        hdr,
        x,
    ) by {
        let_go::lemma_spared(v, p.t, hdr, t1, d, x);
    }
}

// --- cutting ------------------------------------------------------------------

/// A run that is cut.
proof fn lemma_run_cut(v: Vol, p: Pool, hdr: AgHeader, ch: Child, level: int, keep: int)
    requires
        0 < keep,
        tree_laws::settled(v, p.t, hdr.ag_num, hdr),
        ch.st == CELL_FULL,
        tree_cut::within(v, p.t, hdr, ch, level),
        truncate::run_cut(v, p, ch.addr, ch.blocks as int, keep).1 is Ok,
    ensures
        let_go::let_go(
            v,
            p.t,
            hdr,
            truncate::run_cut(v, p, ch.addr, ch.blocks as int, keep).0.t,
            tail_of(v, p.t, ch, level, keep),
        ),
{
    let blocks = ch.blocks as int;
    let (p1, r1) = truncate::run_cut(v, p, ch.addr, blocks, keep);
    let n = r1->Ok_0;
    let d = tail_of(v, p.t, ch, level, keep);
    truncate_laws::lemma_run_cut(v, p, ch.addr, blocks, keep);
    if n < blocks {
        assert(tables::block_count(hdr) <= 0x1_0000_0000) by {
            fmt::lemma_ceil_div(hdr.length as int, 256);
        }
        tree_laws::lemma_run_address(ch.addr, blocks, ch.addr + n);
        lemma_run_in(v, p.t, hdr, ch, level, keep, n);
        lemma_freed_in(v, p, hdr, (ch.addr + n) as u64, blocks - n, d);
    } else {
        let_go::lemma_let_go_none(v, p.t, hdr, d);
    }
}

/// A child that is cut.
#[verifier::rlimit(40)]
proof fn lemma_child_cut(
    v: Vol,
    p: Pool,
    hdr: AgHeader,
    ch: Child,
    level: int,
    cs: int,
    cutoff: int,
    acc: int,
)
    requires
        v.bs >= 2048,
        tree_laws::settled(v, p.t, hdr.ag_num, hdr),
        tree_cut::within(v, p.t, hdr, ch, level),
        truncate::child_cut(v, p, ch, level, cs, cutoff, acc).1 is Ok,
    ensures
        let_go::let_go(
            v,
            p.t,
            hdr,
            truncate::child_cut(v, p, ch, level, cs, cutoff, acc).0.t,
            tail_of(v, p.t, ch, level, cutoff - cs),
        ),
    decreases level, 1int, 0int,
{
    let lim = cutoff - cs;
    let d = tail_of(v, p.t, ch, level, lim);
    let (p1, r1) = truncate::child_cut(v, p, ch, level, cs, cutoff, acc);
    if cs >= cutoff {
        if ch.st == CELL_FREE {
            let_go::lemma_let_go_none(v, p.t, hdr, d);
        } else {
            lemma_child_freed(v, p, hdr, ch, level, lim);
        }
    } else if cs + treenode::cover(level) <= cutoff || ch.st == CELL_FREE {
        let_go::lemma_let_go_none(v, p.t, hdr, d);
    } else if ch.st == CELL_FULL {
        lemma_run_cut(v, p, hdr, ch, level, lim);
    } else {
        let b = treenode::node_level_of(v, p.t, ch.addr, level - 1)->Ok_0;
        tree_cut::lemma_kids_abreast(v, p.t, hdr, ch, level);
        let hdr2 = tree_cut::lemma_children_cut(
            v,
            p,
            hdr,
            b,
            level - 1,
            cs,
            cutoff,
            0,
            acc,
            false,
        );
        lemma_children_cut(v, p, hdr, b, level - 1, cs, cutoff, 0, acc, false);
        let (p2, r2) = truncate::children_cut(v, p, b, level - 1, cs, cutoff, 0, acc, false);
        let (b2, changed, _) = r2->Ok_0;
        lemma_tails_up(v, p.t, ch, level, lim);
        let_go::lemma_let_go_more(
            v,
            p.t,
            hdr,
            p2.t,
            tails_of(v, p.t, tree_cut::kids(b), level - 1, 0, lim),
            d,
        );
        if truncate::node_empty(b2) {
            lemma_freed_in(v, p2, hdr2, ch.addr, 1, d);
            let_go::lemma_let_go_twice(v, p.t, hdr, p2.t, hdr2, p1.t, d);
        } else if changed {
            assert(frees::idle(v, p2.t, hdr, ch.addr));
            frees::lemma_idle_place(v, p2.t, hdr, hdr2, ch.addr);
            let img = roottable::table_image(b2);
            tree_laws::lemma_image(b2, v.bs);
            tables::lemma_foreign_write(v, p2.t, hdr2, ch.addr, img);
            let_go::lemma_let_go_same(v, p2.t, hdr2, p1.t, d);
            let_go::lemma_let_go_twice(v, p.t, hdr, p2.t, hdr2, p1.t, d);
        }
    }
}

/// The children of a node that are cut.
#[verifier::rlimit(40)]
proof fn lemma_children_cut(
    v: Vol,
    p: Pool,
    hdr: AgHeader,
    b: Seq<u8>,
    level: int,
    ns: int,
    cutoff: int,
    i: int,
    acc: int,
    changed: bool,
)
    requires
        v.bs >= 2048,
        tree_laws::settled(v, p.t, hdr.ag_num, hdr),
        b.len() == v.bs,
        0 <= i,
        tree_cut::abreast(v, p.t, hdr, tree_cut::kids(b), level, i),
        truncate::children_cut(v, p, b, level, ns, cutoff, i, acc, changed).1 is Ok,
    ensures
        let_go::let_go(
            v,
            p.t,
            hdr,
            truncate::children_cut(v, p, b, level, ns, cutoff, i, acc, changed).0.t,
            tails_of(v, p.t, tree_cut::kids(b), level, i, cutoff - ns),
        ),
    decreases level, 2int, 64 - i,
{
    let lim = cutoff - ns;
    let ks = tree_cut::kids(b);
    let d = tails_of(v, p.t, ks, level, i, lim);
    if i >= 64 {
        let_go::lemma_let_go_none(v, p.t, hdr, d);
    } else {
        let cs = ns + i * treenode::cover(level);
        assert(tree_cut::within(v, p.t, hdr, ks[i], level)) by {
            reveal(tree_cut::abreast);
        }
        let hdr1 = tree_cut::lemma_child_cut(v, p, hdr, ks[i], level, cs, cutoff, acc);
        lemma_child_cut(v, p, hdr, ks[i], level, cs, cutoff, acc);
        let (p1, r1) = truncate::child_cut(v, p, ks[i], level, cs, cutoff, acc);
        let (o, sum) = r1->Ok_0;
        let c = tree_cut::cut_to(ks[i], o);
        assert(lim - i * treenode::cover(level) == cutoff - cs);
        tree_cut::lemma_one_cut(v, p.t, hdr, ks, p1.t, hdr1, c, level, i, lim);
        lemma_tail_in(v, p.t, ks, level, i, lim);
        let_go::lemma_let_go_more(
            v,
            p.t,
            hdr,
            p1.t,
            tail_of(v, p.t, ks[i], level, cutoff - cs),
            d,
        );
        let b1 = match o {
            None => b,
            Some(_) => treenode::node_with(b, i, c),
        };
        let changed1 = changed || o is Some;
        if o is Some {
            tree_laws::lemma_node_with(b, i, c);
        }
        assert(tree_cut::kids(b1) =~= ks.update(i, c));
        lemma_children_cut(v, p1, hdr1, b1, level, ns, cutoff, i + 1, sum, changed1);
        let p2 = truncate::children_cut(v, p1, b1, level, ns, cutoff, i + 1, sum, changed1).0;
        assert(truncate::children_cut(v, p, b, level, ns, cutoff, i, acc, changed).0 == p2);
        lemma_rest_let_go(
            v,
            p.t,
            hdr,
            ks,
            p1.t,
            hdr1,
            tree_cut::kids(b1),
            p2.t,
            level,
            i,
            lim,
        );
    }
}

/// One child cut, and then the rest.
proof fn lemma_rest_let_go(
    v: Vol,
    t: Map<u64, Seq<u8>>,
    hdr: AgHeader,
    ks: Seq<Child>,
    t1: Map<u64, Seq<u8>>,
    hdr1: AgHeader,
    ks1: Seq<Child>,
    t2: Map<u64, Seq<u8>>,
    level: int,
    i: int,
    lim: int,
)
    requires
        0 <= i < ks.len(),
        ks1.len() == ks.len(),
        forall|j: int| i + 1 <= j < ks.len() ==> #[trigger] ks1[j] == ks[j],
        tree_cut::abreast(v, t, hdr, ks, level, i),
        tree_cut::hush(v, t, hdr, t1, seq![ks[i]], level, 0),
        tables::same_place(hdr, hdr1),
        let_go::let_go(v, t, hdr, t1, tails_of(v, t, ks, level, i, lim)),
        let_go::let_go(v, t1, hdr1, t2, tails_of(v, t1, ks1, level, i + 1, lim)),
    ensures
        let_go::let_go(v, t, hdr, t2, tails_of(v, t, ks, level, i, lim)),
{
    let d = tails_of(v, t, ks, level, i, lim);
    assert forall|j: int| i + 1 <= j < ks.len() implies tree_growth::same_below(
        v,
        t,
        t1,
        #[trigger] ks[j],
        level,
    ) by {
        tree_cut::lemma_beside(v, t, hdr, t1, ks, level, i, j);
    }
    lemma_tails_kept(v, t, ks, t1, ks1, level, i, lim);
    let_go::lemma_let_go_more(v, t1, hdr1, t2, tails_of(v, t1, ks1, level, i + 1, lim), d);
    let_go::lemma_let_go_twice(v, t, hdr, t1, hdr1, t2, d);
}

/// The children of a root that are cut.
#[verifier::rlimit(40)]
proof fn lemma_root_cut(
    v: Vol,
    p: Pool,
    hdr: AgHeader,
    pl: Seq<u8>,
    level: int,
    cutoff: int,
    i: int,
    acc: int,
)
    requires
        v.bs >= 2048,
        tree_laws::settled(v, p.t, hdr.ag_num, hdr),
        pl.len() == 128,
        0 <= i,
        tree_cut::abreast(v, p.t, hdr, tree_cut::root_kids(pl), level, i),
        truncate::root_cut(v, p, pl, level, cutoff, i, acc).1 is Ok,
    ensures
        let_go::let_go(
            v,
            p.t,
            hdr,
            truncate::root_cut(v, p, pl, level, cutoff, i, acc).0.t,
            tails_of(v, p.t, tree_cut::root_kids(pl), level, i, cutoff),
        ),
    decreases ROOT_FANOUT - i,
{
    let ks = tree_cut::root_kids(pl);
    let d = tails_of(v, p.t, ks, level, i, cutoff);
    if i >= ROOT_FANOUT {
        let_go::lemma_let_go_none(v, p.t, hdr, d);
    } else {
        let cs = i * treenode::cover(level);
        assert(tree_cut::within(v, p.t, hdr, ks[i], level)) by {
            reveal(tree_cut::abreast);
        }
        let hdr1 = tree_cut::lemma_child_cut(v, p, hdr, ks[i], level, cs, cutoff, acc);
        lemma_child_cut(v, p, hdr, ks[i], level, cs, cutoff, acc);
        let (p1, r1) = truncate::child_cut(v, p, ks[i], level, cs, cutoff, acc);
        let (o, sum) = r1->Ok_0;
        let c = tree_cut::cut_to(ks[i], o);
        tree_cut::lemma_one_cut(v, p.t, hdr, ks, p1.t, hdr1, c, level, i, cutoff);
        lemma_tail_in(v, p.t, ks, level, i, cutoff);
        let_go::lemma_let_go_more(
            v,
            p.t,
            hdr,
            p1.t,
            tail_of(v, p.t, ks[i], level, cutoff - cs),
            d,
        );
        let pl1 = match o {
            None => pl,
            Some(_) => treenode::root_with(pl, i, c),
        };
        if o is Some {
            tree_laws::lemma_root_with(pl, i, c);
        }
        assert(tree_cut::root_kids(pl1) =~= ks.update(i, c));
        lemma_root_cut(v, p1, hdr1, pl1, level, cutoff, i + 1, sum);
        let p2 = truncate::root_cut(v, p1, pl1, level, cutoff, i + 1, sum).0;
        assert(truncate::root_cut(v, p, pl, level, cutoff, i, acc).0 == p2);
        lemma_rest_let_go(
            v,
            p.t,
            hdr,
            ks,
            p1.t,
            hdr1,
            tree_cut::root_kids(pl1),
            p2.t,
            level,
            i,
            cutoff,
        );
    }
}

/// Cutting a file with an extent tree.
pub proof fn lemma_tree_cut(v: Vol, p: Pool, hdr: AgHeader, m: Mp, cutoff: int)
    requires
        v.bs >= 2048,
        m.format == FMT_TREE,
        tree_laws::settled(v, p.t, hdr.ag_num, hdr),
        tree_cut::tree_within(v, p.t, hdr, m.payload),
        0 <= cutoff,
        truncate::truncated(v, p, m, cutoff).2 is Ok,
    ensures
        forall|x: int|
            0 <= x < tables::block_count(hdr) && !let_go::near(
                v,
                p.t,
                hdr,
                tree_tail(v, p.t, m.payload, cutoff),
                x,
            ) ==> #[trigger] tables::block_state(
                v,
                truncate::truncated(v, p, m, cutoff).0.t,
                hdr,
                x,
            ) == tables::block_state(v, p.t, hdr, x),
{
    let pl = m.payload;
    let t1 = truncate::truncated(v, p, m, cutoff).0.t;
    tree_cut::lemma_root_abreast(v, p.t, hdr, pl);
    lemma_root_cut(v, p, hdr, pl, pl[0] as int, cutoff, 0, 0);
    let d = tree_tail(v, p.t, pl, cutoff);
    assert forall|x: int|
        0 <= x < tables::block_count(hdr) && !let_go::near(
            v,
            p.t,
            hdr,
            d,
            x,
        ) implies #[trigger] tables::block_state(v, t1, hdr, x) == tables::block_state(
        v,
        p.t,
        hdr,
        x,
    ) by {
        let_go::lemma_spared(v, p.t, hdr, t1, d, x);
    }
}

} // verus!
