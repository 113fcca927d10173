//! Extent trees that are cut or freed: the file keeps what it maps before the cut,
//! and freeing it frees every block that it had.

use crate::allocator::Pool;
use crate::error::FsError;
use crate::fmt::{CELL_FREE, CELL_FULL, CELL_REFINED, FMT_TREE, ROOT_FANOUT, TREE_MAGIC};
use crate::header::AgHeader;
use crate::mapping::Mp;
use crate::treenode::{Child, MAX_LEVEL};
use crate::vol::Vol;
use vstd::prelude::*;

use crate::allocator;
use crate::allocator_laws;
use crate::fmt;
use crate::frees;
use crate::fs;
use crate::let_go;
use crate::mapping;
use crate::roottable;
use crate::tables;
use crate::tree_growth;
use crate::tree_laws;
use crate::tree_spared;
use crate::treenode;
use crate::truncate;
use crate::truncate_laws;
use crate::vol;

verus! {

// --- trees inside a group -----------------------------------------------------

/// The `n` blocks from `addr` on are in the group.
pub open spec fn span_here(hdr: AgHeader, addr: u64, n: int) -> bool {
    &&& fmt::addr_ag(addr) == hdr.ag_num
    &&& fmt::addr_local(addr) + n <= tables::block_count(hdr)
}

/// A child of level `level` whose nodes read, are met once and are in the group,
/// off its tables, and whose runs are in the group.
pub open spec fn within(v: Vol, t: Map<u64, Seq<u8>>, hdr: AgHeader, ch: Child, level: int) -> bool
    decreases level,
{
    if ch.st == CELL_FREE {
        true
    } else if ch.st == CELL_FULL {
        span_here(hdr, ch.addr, ch.blocks as int)
    } else {
        &&& ch.st == CELL_REFINED
        &&& level > 0
        &&& span_here(hdr, ch.addr, 1)
        &&& frees::idle(v, t, hdr, ch.addr)
        &&& treenode::node_level_of(v, t, ch.addr, level - 1) matches Ok(b) && b.len() == v.bs
        &&& forall|j: int|
            0 <= j < 64 ==> within(
                v,
                t,
                hdr,
                #[trigger] tree_growth::kid(v, t, ch, level, j),
                level - 1,
            )
        &&& tree_growth::lone(v, t, ch, level)
    }
}

/// The nodes below a child inside the group are off the tables.
pub proof fn lemma_below_idle(v: Vol, t: Map<u64, Seq<u8>>, hdr: AgHeader, ch: Child, level: int, x: u64)
    requires
        within(v, t, hdr, ch, level),
        tree_growth::below(v, t, ch, level, x),
    ensures
        frees::idle(v, t, hdr, x),
    decreases level,
{
    if x != ch.addr {
        let j = choose|j: int|
            0 <= j < 64 && tree_growth::below(
                v,
                t,
                #[trigger] tree_growth::kid(v, t, ch, level, j),
                level - 1,
                x,
            );
        lemma_below_idle(v, t, hdr, tree_growth::kid(v, t, ch, level, j), level - 1, x);
    }
}

/// Blocks off the tables stay off them.
pub open spec fn idle_stays(v: Vol, t: Map<u64, Seq<u8>>, t1: Map<u64, Seq<u8>>, hdr: AgHeader) -> bool {
    forall|x: u64| frees::idle(v, t, hdr, x) ==> #[trigger] frees::idle(v, t1, hdr, x)
}

/// A child inside the group whose nodes hold what they held stays so.
proof fn lemma_within_kept(
    v: Vol,
    t: Map<u64, Seq<u8>>,
    hdr: AgHeader,
    t1: Map<u64, Seq<u8>>,
    hdr1: AgHeader,
    ch: Child,
    level: int,
)
    requires
        within(v, t, hdr, ch, level),
        tables::same_place(hdr, hdr1),
        idle_stays(v, t, t1, hdr),
        tree_growth::same_below(v, t, t1, ch, level),
    ensures
        within(v, t1, hdr1, ch, level),
    decreases level,
{
    if ch.st == CELL_REFINED {
        tree_growth::lemma_same_kid(v, t, t1, ch, level, 0);
        assert(frees::idle(v, t1, hdr, ch.addr));
        frees::lemma_idle_place(v, t1, hdr, hdr1, ch.addr);
        assert forall|j: int| 0 <= j < 64 implies within(
            v,
            t1,
            hdr1,
            #[trigger] tree_growth::kid(v, t1, ch, level, j),
            level - 1,
        ) by {
            tree_growth::lemma_same_kid(v, t, t1, ch, level, j);
            let k = tree_growth::kid(v, t, ch, level, j);
            assert(within(v, t, hdr, k, level - 1));
            lemma_within_kept(v, t, hdr, t1, hdr1, k, level - 1);
        }
        assert(tree_growth::lone(v, t1, ch, level)) by {
            reveal(tree_growth::lone);
            assert forall|j: int, x: u64|
                0 <= j < 64 && #[trigger] tree_growth::below(
                    v,
                    t1,
                    tree_growth::kid(v, t1, ch, level, j),
                    level - 1,
                    x,
                ) implies tree_growth::below(
                v,
                t,
                tree_growth::kid(v, t, ch, level, j),
                level - 1,
                x,
            ) by {
                tree_growth::lemma_same_kid(v, t, t1, ch, level, j);
                tree_growth::lemma_same_nodes(
                    v,
                    t,
                    t1,
                    tree_growth::kid(v, t, ch, level, j),
                    level - 1,
                    x,
                );
            }
        }
    }
}

// --- freeing ------------------------------------------------------------------

/// Block `x` of the group is free.
pub open spec fn free_at(v: Vol, t: Map<u64, Seq<u8>>, hdr: AgHeader, x: u64) -> bool {
    &&& fmt::addr_ag(x) == hdr.ag_num
    &&& tables::block_state(v, t, hdr, fmt::addr_local(x) as int) == Ok::<u8, FsError>(CELL_FREE)
}

/// Free blocks of the group stay free.
pub open spec fn free_stays(v: Vol, t: Map<u64, Seq<u8>>, t1: Map<u64, Seq<u8>>, hdr: AgHeader) -> bool {
    forall|x: u64|
        fmt::addr_local(x) < tables::block_count(hdr) && free_at(v, t, hdr, x)
            ==> #[trigger] free_at(v, t1, hdr, x)
}

proof fn lemma_free_place(v: Vol, t: Map<u64, Seq<u8>>, a: AgHeader, b: AgHeader, x: u64)
    requires
        tables::same_place(a, b),
    ensures
        free_at(v, t, a, x) == free_at(v, t, b, x),
{
    tables::lemma_state_place(v, t, a, b, fmt::addr_local(x) as int);
}

/// What freeing leaves: sound tables, every block off the tables as it was, and
/// free blocks free.
pub open spec fn calm(v: Vol, t: Map<u64, Seq<u8>>, hdr: AgHeader, t1: Map<u64, Seq<u8>>, hdr1: AgHeader) -> bool {
    &&& tables::same_place(hdr, hdr1)
    &&& tree_laws::settled(v, t1, hdr1.ag_num, hdr1)
    &&& idle_stays(v, t, t1, hdr)
    &&& frees::quiet(v, t, t1, hdr)
    &&& free_stays(v, t, t1, hdr)
}

proof fn lemma_calm_twice(
    v: Vol,
    t: Map<u64, Seq<u8>>,
    hdr: AgHeader,
    t1: Map<u64, Seq<u8>>,
    hdr1: AgHeader,
    t2: Map<u64, Seq<u8>>,
    hdr2: AgHeader,
)
    requires
        calm(v, t, hdr, t1, hdr1),
        calm(v, t1, hdr1, t2, hdr2),
    ensures
        calm(v, t, hdr, t2, hdr2),
{
    assert forall|x: u64| frees::idle(v, t, hdr, x) implies #[trigger] frees::idle(
        v,
        t2,
        hdr,
        x,
    ) by {
        assert(frees::idle(v, t1, hdr, x));
        frees::lemma_idle_place(v, t1, hdr, hdr1, x);
        assert(frees::idle(v, t2, hdr1, x));
        frees::lemma_idle_place(v, t2, hdr, hdr1, x);
    }
    assert forall|x: u64| frees::idle(v, t, hdr, x) implies #[trigger] vol::rd(v, t2, x) == vol::rd(
        v,
        t,
        x,
    ) by {
        assert(vol::rd(v, t1, x) == vol::rd(v, t, x));
        assert(frees::idle(v, t1, hdr, x));
        frees::lemma_idle_place(v, t1, hdr, hdr1, x);
    }
    assert forall|x: u64|
        fmt::addr_local(x) < tables::block_count(hdr) && free_at(v, t, hdr, x) implies #[trigger] free_at(
        v,
        t2,
        hdr,
        x,
    ) by {
        assert(free_at(v, t1, hdr, x));
        lemma_free_place(v, t1, hdr, hdr1, x);
        assert(free_at(v, t2, hdr1, x));
        lemma_free_place(v, t2, hdr, hdr1, x);
    }
}

/// Freeing blocks of the group.
pub proof fn lemma_freed(v: Vol, p: Pool, hdr: AgHeader, blk: u64, n: int) -> (hdr1: AgHeader)
    requires
        0 <= n,
        tree_laws::settled(v, p.t, hdr.ag_num, hdr),
        span_here(hdr, blk, n),
        allocator::freed(v, p, blk, n).1 is Ok,
    ensures
        calm(v, p.t, hdr, allocator::freed(v, p, blk, n).0.t, hdr1),
        forall|x: u64|
            blk <= x < blk + n ==> #[trigger] free_at(
                v,
                allocator::freed(v, p, blk, n).0.t,
                hdr,
                x,
            ),
{
    let t1 = allocator::freed(v, p, blk, n).0.t;
    let b = fmt::addr_local(blk) as int;
    allocator_laws::law_freeing_frees_its_blocks(v, p, blk, hdr, n);
    frees::law_freeing_writes_to_tables_only(v, p, blk, hdr, n);
    let end = allocator_laws::freed_end(v, p.t, hdr, b, n);
    assert(tables::block_count(hdr) <= 0x1_0000_0000) by {
        fmt::lemma_ceil_div(hdr.length as int, 256);
    }
    assert forall|x: u64| blk <= x < blk + n implies #[trigger] free_at(v, t1, hdr, x) by {
        tree_laws::lemma_run_address(blk, n, x as int);
        assert(allocator_laws::given_at(
            v,
            p.t,
            t1,
            hdr,
            b,
            end,
            fmt::addr_local(x) as int,
        ));
    }
    assert forall|x: u64|
        fmt::addr_local(x) < tables::block_count(hdr) && free_at(v, p.t, hdr, x) implies #[trigger] free_at(
        v,
        t1,
        hdr,
        x,
    ) by {
        assert(allocator_laws::given_at(
            v,
            p.t,
            t1,
            hdr,
            b,
            end,
            fmt::addr_local(x) as int,
        ));
    }
    fs::header_of(v, t1, hdr.ag_num)->Ok_0
}

/// A child inside the group is so after freeing.
pub proof fn lemma_within_calm(
    v: Vol,
    t: Map<u64, Seq<u8>>,
    hdr: AgHeader,
    t1: Map<u64, Seq<u8>>,
    hdr1: AgHeader,
    ch: Child,
    level: int,
)
    requires
        within(v, t, hdr, ch, level),
        calm(v, t, hdr, t1, hdr1),
    ensures
        within(v, t1, hdr1, ch, level),
{
    assert forall|x: u64| #[trigger] tree_growth::below(v, t, ch, level, x) implies vol::rd(v, t1, x)
        == vol::rd(v, t, x) by {
        lemma_below_idle(v, t, hdr, ch, level, x);
    }
    lemma_within_kept(v, t, hdr, t1, hdr1, ch, level);
}

/// Freeing what a child maps.
pub proof fn lemma_child_freed(v: Vol, p: Pool, hdr: AgHeader, ch: Child, level: int) -> (hdr1: AgHeader)
    requires
        tree_laws::settled(v, p.t, hdr.ag_num, hdr),
        within(v, p.t, hdr, ch, level),
        truncate::child_freed(v, p, ch, level).1 is Ok,
    ensures
        calm(v, p.t, hdr, truncate::child_freed(v, p, ch, level).0.t, hdr1),
    decreases level, 1int, 0int,
{
    if ch.st == CELL_FREE {
        hdr
    } else if ch.st == CELL_FULL {
        lemma_freed(v, p, hdr, ch.addr, ch.blocks as int)
    } else {
        let b = treenode::node_level_of(v, p.t, ch.addr, level - 1)->Ok_0;
        assert forall|j: int| 0 <= j < 64 implies within(
            v,
            p.t,
            hdr,
            #[trigger] treenode::node_at(b, j),
            level - 1,
        ) by {
            assert(within(v, p.t, hdr, tree_growth::kid(v, p.t, ch, level, j), level - 1));
        }
        let hdr1 = lemma_children_freed(v, p, hdr, b, level - 1, 0, 0);
        let p1 = truncate::children_freed(v, p, b, level - 1, 0, 0).0;
        let hdr2 = lemma_freed(v, p1, hdr1, ch.addr, 1);
        let p2 = allocator::freed(v, p1, ch.addr, 1).0;
        lemma_calm_twice(v, p.t, hdr, p1.t, hdr1, p2.t, hdr2);
        hdr2
    }
}

/// Freeing what the children of a node map.
pub proof fn lemma_children_freed(
    v: Vol,
    p: Pool,
    hdr: AgHeader,
    b: Seq<u8>,
    level: int,
    i: int,
    acc: int,
) -> (hdr1: AgHeader)
    requires
        tree_laws::settled(v, p.t, hdr.ag_num, hdr),
        0 <= i,
        forall|j: int|
            i <= j < 64 ==> within(v, p.t, hdr, #[trigger] treenode::node_at(b, j), level),
        truncate::children_freed(v, p, b, level, i, acc).1 is Ok,
    ensures
        calm(v, p.t, hdr, truncate::children_freed(v, p, b, level, i, acc).0.t, hdr1),
    decreases level, 2int, 64 - i,
{
    if i >= 64 {
        hdr
    } else {
        let ch = treenode::node_at(b, i);
        let hdr1 = lemma_child_freed(v, p, hdr, ch, level);
        let (p1, r1) = truncate::child_freed(v, p, ch, level);
        assert forall|j: int| i + 1 <= j < 64 implies within(
            v,
            p1.t,
            hdr1,
            #[trigger] treenode::node_at(b, j),
            level,
        ) by {
            lemma_within_calm(v, p.t, hdr, p1.t, hdr1, treenode::node_at(b, j), level);
        }
        let sum = acc + r1->Ok_0;
        let hdr2 = lemma_children_freed(v, p1, hdr1, b, level, i + 1, sum);
        let p2 = truncate::children_freed(v, p1, b, level, i + 1, sum).0;
        lemma_calm_twice(v, p.t, hdr, p1.t, hdr1, p2.t, hdr2);
        hdr2
    }
}

// --- what cutting does --------------------------------------------------------

/// Offset `rel` of a child is mapped as before.
#[verifier::opaque]
pub open spec fn front_at(
    v: Vol,
    t: Map<u64, Seq<u8>>,
    ch: Child,
    t1: Map<u64, Seq<u8>>,
    ch1: Child,
    level: int,
    rel: int,
) -> bool {
    tree_laws::address(mapping::child_map(v, t1, ch1, rel, level)) == tree_laws::address(
        mapping::child_map(v, t, ch, rel, level),
    )
}

/// The child has no new nodes, and what it maps before `lim` is as it was.
pub open spec fn front(
    v: Vol,
    t: Map<u64, Seq<u8>>,
    ch: Child,
    t1: Map<u64, Seq<u8>>,
    ch1: Child,
    level: int,
    lim: int,
) -> bool {
    &&& forall|x: u64| #[trigger]
        tree_growth::below(v, t1, ch1, level, x) ==> tree_growth::below(v, t, ch, level, x)
    &&& forall|rel: int|
        0 <= rel < treenode::cover(level) && rel < lim ==> #[trigger] front_at(
            v,
            t,
            ch,
            t1,
            ch1,
            level,
            rel,
        )
}

proof fn lemma_front_twice(
    v: Vol,
    t: Map<u64, Seq<u8>>,
    ch: Child,
    t1: Map<u64, Seq<u8>>,
    ch1: Child,
    t2: Map<u64, Seq<u8>>,
    ch2: Child,
    level: int,
    lim: int,
)
    requires
        front(v, t, ch, t1, ch1, level, lim),
        front(v, t1, ch1, t2, ch2, level, lim),
    ensures
        front(v, t, ch, t2, ch2, level, lim),
{
    assert forall|x: u64| #[trigger] tree_growth::below(
        v,
        t2,
        ch2,
        level,
        x,
    ) implies tree_growth::below(v, t, ch, level, x) by {
        assert(tree_growth::below(v, t1, ch1, level, x));
    }
    assert forall|rel: int| 0 <= rel < treenode::cover(level) && rel < lim implies #[trigger] front_at(
        v,
        t,
        ch,
        t2,
        ch2,
        level,
        rel,
    ) by {
        assert(front_at(v, t, ch, t1, ch1, level, rel));
        assert(front_at(v, t1, ch1, t2, ch2, level, rel));
        reveal(front_at);
    }
}

/// A child whose nodes hold what they held.
proof fn lemma_front_same(
    v: Vol,
    t: Map<u64, Seq<u8>>,
    t1: Map<u64, Seq<u8>>,
    ch: Child,
    level: int,
    lim: int,
)
    requires
        tree_growth::same_below(v, t, t1, ch, level),
    ensures
        front(v, t, ch, t1, ch, level, lim),
{
    assert forall|x: u64| #[trigger] tree_growth::below(
        v,
        t1,
        ch,
        level,
        x,
    ) implies tree_growth::below(v, t, ch, level, x) by {
        tree_growth::lemma_same_nodes(v, t, t1, ch, level, x);
    }
    assert forall|rel: int| 0 <= rel < treenode::cover(level) && rel < lim implies #[trigger] front_at(
        v,
        t,
        ch,
        t1,
        ch,
        level,
        rel,
    ) by {
        tree_growth::lemma_map_kept(v, t, t1, ch, level, rel);
        reveal(front_at);
    }
}

/// The tables are sound where they were, and blocks off them stay off them.
pub open spec fn moved(v: Vol, t: Map<u64, Seq<u8>>, hdr: AgHeader, t1: Map<u64, Seq<u8>>, hdr1: AgHeader) -> bool {
    &&& tables::same_place(hdr, hdr1)
    &&& tree_laws::settled(v, t1, hdr1.ag_num, hdr1)
    &&& idle_stays(v, t, t1, hdr)
}

/// Block `x` is a node below one of the children from `i` on.
pub open spec fn under(v: Vol, t: Map<u64, Seq<u8>>, ks: Seq<Child>, level: int, i: int, x: u64) -> bool {
    exists|j: int| i <= j < ks.len() && tree_growth::below(v, t, #[trigger] ks[j], level, x)
}

/// Blocks off the tables hold what they held, but for nodes below the children
/// from `i` on.
pub open spec fn hush(
    v: Vol,
    t: Map<u64, Seq<u8>>,
    hdr: AgHeader,
    t1: Map<u64, Seq<u8>>,
    ks: Seq<Child>,
    level: int,
    i: int,
) -> bool {
    forall|x: u64|
        frees::idle(v, t, hdr, x) && !under(v, t, ks, level, i, x) ==> #[trigger] vol::rd(v, t1, x)
            == vol::rd(v, t, x)
}

/// Children side by side: those from `i` on are inside the group, the nodes below
/// each are off the tables, and none is below two of them.
#[verifier::opaque]
pub open spec fn abreast(
    v: Vol,
    t: Map<u64, Seq<u8>>,
    hdr: AgHeader,
    ks: Seq<Child>,
    level: int,
    i: int,
) -> bool {
    &&& forall|j: int| i <= j < ks.len() ==> within(v, t, hdr, #[trigger] ks[j], level)
    &&& forall|j: int, x: u64|
        0 <= j < ks.len() && #[trigger] tree_growth::below(v, t, ks[j], level, x) ==> frees::idle(
            v,
            t,
            hdr,
            x,
        )
    &&& forall|j: int, k: int, x: u64|
        0 <= j < ks.len() && 0 <= k < ks.len() && #[trigger] tree_growth::below(
            v,
            t,
            ks[j],
            level,
            x,
        ) && #[trigger] tree_growth::below(v, t, ks[k], level, x) ==> j == k
}

/// What cutting the children from `i` on does to all of them, `lim` blocks of what
/// they cover together being kept.
pub open spec fn cut(
    v: Vol,
    t: Map<u64, Seq<u8>>,
    hdr: AgHeader,
    ks: Seq<Child>,
    t1: Map<u64, Seq<u8>>,
    hdr1: AgHeader,
    ks1: Seq<Child>,
    level: int,
    i: int,
    lim: int,
) -> bool {
    &&& moved(v, t, hdr, t1, hdr1)
    &&& hush(v, t, hdr, t1, ks, level, i)
    &&& ks1.len() == ks.len()
    &&& forall|j: int|
        0 <= j < ks.len() ==> front(
            v,
            t,
            ks[j],
            t1,
            #[trigger] ks1[j],
            level,
            lim - j * treenode::cover(level),
        )
}

/// Cutting child `i` leaves the nodes below the others alone.
pub proof fn lemma_beside(
    v: Vol,
    t: Map<u64, Seq<u8>>,
    hdr: AgHeader,
    t1: Map<u64, Seq<u8>>,
    ks: Seq<Child>,
    level: int,
    i: int,
    j: int,
)
    requires
        abreast(v, t, hdr, ks, level, i),
        0 <= i < ks.len(),
        0 <= j < ks.len(),
        j != i,
        hush(v, t, hdr, t1, seq![ks[i]], level, 0),
    ensures
        tree_growth::same_below(v, t, t1, ks[j], level),
{
    reveal(abreast);
    assert forall|x: u64| #[trigger] tree_growth::below(v, t, ks[j], level, x) implies vol::rd(
        v,
        t1,
        x,
    ) == vol::rd(v, t, x) by {
        if under(v, t, seq![ks[i]], level, 0, x) {
            assert(tree_growth::below(v, t, ks[i], level, x));
        }
    }
}

/// One child cut.
#[verifier::rlimit(40)]
pub proof fn lemma_one_cut(
    v: Vol,
    t: Map<u64, Seq<u8>>,
    hdr: AgHeader,
    ks: Seq<Child>,
    t1: Map<u64, Seq<u8>>,
    hdr1: AgHeader,
    c: Child,
    level: int,
    i: int,
    lim: int,
)
    requires
        abreast(v, t, hdr, ks, level, i),
        0 <= i < ks.len(),
        moved(v, t, hdr, t1, hdr1),
        hush(v, t, hdr, t1, seq![ks[i]], level, 0),
        front(v, t, ks[i], t1, c, level, lim - i * treenode::cover(level)),
    ensures
        abreast(v, t1, hdr1, ks.update(i, c), level, i + 1),
        cut(v, t, hdr, ks, t1, hdr1, ks.update(i, c), level, i, lim),
{
    let ks1 = ks.update(i, c);
    assert forall|j: int| 0 <= j < ks.len() implies front(
        v,
        t,
        ks[j],
        t1,
        #[trigger] ks1[j],
        level,
        lim - j * treenode::cover(level),
    ) by {
        if j != i {
            lemma_beside(v, t, hdr, t1, ks, level, i, j);
            lemma_front_same(v, t, t1, ks[j], level, lim - j * treenode::cover(level));
        }
    }
    assert forall|x: u64|
        frees::idle(v, t, hdr, x) && !under(v, t, ks, level, i, x) implies #[trigger] vol::rd(
        v,
        t1,
        x,
    ) == vol::rd(v, t, x) by {
        if under(v, t, seq![ks[i]], level, 0, x) {
            assert(tree_growth::below(v, t, ks[i], level, x));
        }
    }
    assert(abreast(v, t1, hdr1, ks1, level, i + 1)) by {
        assert forall|j: int| i + 1 <= j < ks1.len() implies within(
            v,
            t1,
            hdr1,
            #[trigger] ks1[j],
            level,
        ) by {
            lemma_beside(v, t, hdr, t1, ks, level, i, j);
            assert(within(v, t, hdr, ks[j], level)) by {
                reveal(abreast);
            }
            lemma_within_kept(v, t, hdr, t1, hdr1, ks[j], level);
        }
        assert forall|j: int, x: u64|
            0 <= j < ks1.len() && #[trigger] tree_growth::below(
                v,
                t1,
                ks1[j],
                level,
                x,
            ) implies tree_growth::below(v, t, ks[j], level, x) && frees::idle(v, t1, hdr1, x) by {
            assert(front(v, t, ks[j], t1, ks1[j], level, lim - j * treenode::cover(level)));
            assert(tree_growth::below(v, t, ks[j], level, x));
            assert(frees::idle(v, t, hdr, x)) by {
                reveal(abreast);
            }
            assert(frees::idle(v, t1, hdr, x));
            frees::lemma_idle_place(v, t1, hdr, hdr1, x);
        }
        reveal(abreast);
    }
}

/// Cutting one child, and then the rest.
#[verifier::rlimit(40)]
proof fn lemma_cut_twice(
    v: Vol,
    t: Map<u64, Seq<u8>>,
    hdr: AgHeader,
    ks: Seq<Child>,
    t1: Map<u64, Seq<u8>>,
    hdr1: AgHeader,
    ks1: Seq<Child>,
    t2: Map<u64, Seq<u8>>,
    hdr2: AgHeader,
    ks2: Seq<Child>,
    level: int,
    i: int,
    lim: int,
)
    requires
        cut(v, t, hdr, ks, t1, hdr1, ks1, level, i, lim),
        cut(v, t1, hdr1, ks1, t2, hdr2, ks2, level, i + 1, lim),
        0 <= i,
    ensures
        cut(v, t, hdr, ks, t2, hdr2, ks2, level, i, lim),
{
    assert forall|x: u64| frees::idle(v, t, hdr, x) implies #[trigger] frees::idle(
        v,
        t2,
        hdr,
        x,
    ) by {
        assert(frees::idle(v, t1, hdr, x));
        frees::lemma_idle_place(v, t1, hdr, hdr1, x);
        assert(frees::idle(v, t2, hdr1, x));
        frees::lemma_idle_place(v, t2, hdr, hdr1, x);
    }
    assert forall|j: int| 0 <= j < ks.len() implies front(
        v,
        t,
        ks[j],
        t2,
        #[trigger] ks2[j],
        level,
        lim - j * treenode::cover(level),
    ) by {
        let l = lim - j * treenode::cover(level);
        assert(front(v, t, ks[j], t1, ks1[j], level, l));
        lemma_front_twice(v, t, ks[j], t1, ks1[j], t2, ks2[j], level, l);
    }
    assert forall|x: u64|
        frees::idle(v, t, hdr, x) && !under(v, t, ks, level, i, x) implies #[trigger] vol::rd(
        v,
        t2,
        x,
    ) == vol::rd(v, t, x) by {
        assert(vol::rd(v, t1, x) == vol::rd(v, t, x));
        assert(frees::idle(v, t1, hdr, x));
        frees::lemma_idle_place(v, t1, hdr, hdr1, x);
        if under(v, t1, ks1, level, i + 1, x) {
            let j = choose|j: int|
                i + 1 <= j < ks1.len() && tree_growth::below(v, t1, #[trigger] ks1[j], level, x);
            assert(front(v, t, ks[j], t1, ks1[j], level, lim - j * treenode::cover(level)));
            assert(tree_growth::below(v, t, ks[j], level, x));
        }
    }
}

// --- cutting a node -----------------------------------------------------------

/// The children of a node.
pub open spec fn kids(b: Seq<u8>) -> Seq<Child> {
    Seq::new(64, |j: int| treenode::node_at(b, j))
}

/// The children of a node inside the group are side by side.
pub proof fn lemma_kids_abreast(v: Vol, t: Map<u64, Seq<u8>>, hdr: AgHeader, ch: Child, level: int)
    requires
        level > 0,
        ch.st == CELL_REFINED,
        within(v, t, hdr, ch, level),
    ensures
        abreast(
            v,
            t,
            hdr,
            kids(treenode::node_level_of(v, t, ch.addr, level - 1)->Ok_0),
            level - 1,
            0,
        ),
{
    let b = treenode::node_level_of(v, t, ch.addr, level - 1)->Ok_0;
    let ks = kids(b);
    reveal(abreast);
    reveal(tree_growth::lone);
    assert forall|j: int| 0 <= j < 64 implies #[trigger] ks[j] == tree_growth::kid(
        v,
        t,
        ch,
        level,
        j,
    ) && within(v, t, hdr, ks[j], level - 1) by {
        assert(within(v, t, hdr, tree_growth::kid(v, t, ch, level, j), level - 1));
    }
    assert forall|j: int, x: u64|
        0 <= j < ks.len() && #[trigger] tree_growth::below(
            v,
            t,
            ks[j],
            level - 1,
            x,
        ) implies frees::idle(v, t, hdr, x) by {
        lemma_below_idle(v, t, hdr, ks[j], level - 1, x);
    }
    assert forall|j: int, k: int, x: u64|
        0 <= j < ks.len() && 0 <= k < ks.len() && #[trigger] tree_growth::below(
            v,
            t,
            ks[j],
            level - 1,
            x,
        ) && #[trigger] tree_growth::below(v, t, ks[k], level - 1, x) implies j == k by {
        assert(tree_growth::below(v, t, tree_growth::kid(v, t, ch, level, j), level - 1, x));
        assert(tree_growth::below(v, t, tree_growth::kid(v, t, ch, level, k), level - 1, x));
    }
}

/// A node below a child of `ch` is below `ch`, and is not its own.
proof fn lemma_kid_below(
    v: Vol,
    t: Map<u64, Seq<u8>>,
    hdr: AgHeader,
    ch: Child,
    level: int,
    j: int,
    x: u64,
)
    requires
        level > 0,
        ch.st == CELL_REFINED,
        within(v, t, hdr, ch, level),
        0 <= j < 64,
        tree_growth::below(
            v,
            t,
            kids(treenode::node_level_of(v, t, ch.addr, level - 1)->Ok_0)[j],
            level - 1,
            x,
        ),
    ensures
        tree_growth::below(v, t, ch, level, x),
        x != ch.addr,
{
    reveal(tree_growth::lone);
    assert(tree_growth::below(v, t, tree_growth::kid(v, t, ch, level, j), level - 1, x));
}

/// What is off the tables and not below `ch` holds what it held once its children
/// are cut.
proof fn lemma_hush_up(
    v: Vol,
    t: Map<u64, Seq<u8>>,
    hdr: AgHeader,
    ch: Child,
    t1: Map<u64, Seq<u8>>,
    level: int,
    x: u64,
)
    requires
        level > 0,
        ch.st == CELL_REFINED,
        within(v, t, hdr, ch, level),
        hush(
            v,
            t,
            hdr,
            t1,
            kids(treenode::node_level_of(v, t, ch.addr, level - 1)->Ok_0),
            level - 1,
            0,
        ),
        frees::idle(v, t, hdr, x),
        !tree_growth::below(v, t, ch, level, x) || x == ch.addr,
    ensures
        vol::rd(v, t1, x) == vol::rd(v, t, x),
{
    let ks = kids(treenode::node_level_of(v, t, ch.addr, level - 1)->Ok_0);
    if under(v, t, ks, level - 1, 0, x) {
        let j = choose|j: int|
            0 <= j < ks.len() && tree_growth::below(v, t, #[trigger] ks[j], level - 1, x);
        lemma_kid_below(v, t, hdr, ch, level, j, x);
    }
}

/// The children of a node cut, seen from the child that names the node.
#[verifier::rlimit(40)]
proof fn lemma_front_up(
    v: Vol,
    t: Map<u64, Seq<u8>>,
    hdr: AgHeader,
    ch: Child,
    t2: Map<u64, Seq<u8>>,
    b2: Seq<u8>,
    t3: Map<u64, Seq<u8>>,
    level: int,
    lim: int,
)
    requires
        level > 0,
        ch.st == CELL_REFINED,
        within(v, t, hdr, ch, level),
        forall|j: int|
            0 <= j < 64 ==> front(
                v,
                t,
                kids(treenode::node_level_of(v, t, ch.addr, level - 1)->Ok_0)[j],
                t2,
                #[trigger] kids(b2)[j],
                level - 1,
                lim - j * treenode::cover(level - 1),
            ),
        forall|j: int|
            0 <= j < 64 ==> tree_growth::same_below(v, t2, t3, #[trigger] kids(b2)[j], level - 1),
        treenode::node_level_of(v, t3, ch.addr, level - 1) is Ok,
        forall|j: int|
            0 <= j < 64 ==> #[trigger] tree_growth::kid(v, t3, ch, level, j) == kids(b2)[j],
    ensures
        front(v, t, ch, t3, ch, level, lim),
{
    let b = treenode::node_level_of(v, t, ch.addr, level - 1)->Ok_0;
    let c = treenode::cover(level - 1);
    assert forall|x: u64| #[trigger] tree_growth::below(
        v,
        t3,
        ch,
        level,
        x,
    ) implies tree_growth::below(v, t, ch, level, x) by {
        if x != ch.addr {
            let j = choose|j: int|
                0 <= j < 64 && tree_growth::below(
                    v,
                    t3,
                    #[trigger] tree_growth::kid(v, t3, ch, level, j),
                    level - 1,
                    x,
                );
            assert(tree_growth::kid(v, t3, ch, level, j) == kids(b2)[j]);
            tree_growth::lemma_same_nodes(v, t2, t3, kids(b2)[j], level - 1, x);
            assert(tree_growth::below(v, t2, kids(b2)[j], level - 1, x));
            lemma_kid_below(v, t, hdr, ch, level, j, x);
        }
    }
    assert forall|rel: int| 0 <= rel < treenode::cover(level) && rel < lim implies #[trigger] front_at(
        v,
        t,
        ch,
        t3,
        ch,
        level,
        rel,
    ) by {
        lemma_rel_up(v, t, ch, t2, b2, level, lim, rel);
        let j = rel / c;
        treenode::lemma_cover_monotonic(level - 1, level - 1);
        tree_laws::lemma_part(rel, c);
        assert(tree_growth::kid(v, t3, ch, level, j) == kids(b2)[j]);
        tree_growth::lemma_map_kept(v, t2, t3, kids(b2)[j], level - 1, rel % c);
        assert(mapping::child_map(v, t3, ch, rel, level) == mapping::child_map(
            v,
            t3,
            kids(b2)[j],
            rel % c,
            level - 1,
        ));
        reveal(front_at);
    }
}

/// Where offset `rel` of `ch` leads once the children of its node are cut.
proof fn lemma_rel_up(
    v: Vol,
    t: Map<u64, Seq<u8>>,
    ch: Child,
    t2: Map<u64, Seq<u8>>,
    b2: Seq<u8>,
    level: int,
    lim: int,
    rel: int,
)
    requires
        level > 0,
        ch.st == CELL_REFINED,
        treenode::node_level_of(v, t, ch.addr, level - 1) is Ok,
        forall|j: int|
            0 <= j < 64 ==> front(
                v,
                t,
                kids(treenode::node_level_of(v, t, ch.addr, level - 1)->Ok_0)[j],
                t2,
                #[trigger] kids(b2)[j],
                level - 1,
                lim - j * treenode::cover(level - 1),
            ),
        0 <= rel < treenode::cover(level),
        rel < lim,
    ensures
        tree_laws::address(mapping::child_map(v, t, ch, rel, level)) == tree_laws::address(
            mapping::child_map(
                v,
                t2,
                kids(b2)[rel / treenode::cover(level - 1)],
                rel % treenode::cover(level - 1),
                level - 1,
            ),
        ),
{
    let b = treenode::node_level_of(v, t, ch.addr, level - 1)->Ok_0;
    let c = treenode::cover(level - 1);
    treenode::lemma_cover_monotonic(level - 1, level - 1);
    tree_laws::lemma_part(rel, c);
    let j = rel / c;
    assert(c * j == j * c) by (nonlinear_arith);
    assert(front(v, t, kids(b)[j], t2, kids(b2)[j], level - 1, lim - j * c));
    assert(front_at(v, t, kids(b)[j], t2, kids(b2)[j], level - 1, rel % c));
    reveal(front_at);
    assert(mapping::child_map(v, t, ch, rel, level) == mapping::child_map(
        v,
        t,
        kids(b)[j],
        rel % c,
        level - 1,
    ));
}

/// A node that is stored once its children are cut.
#[verifier::rlimit(40)]
proof fn lemma_node_stored(
    v: Vol,
    t: Map<u64, Seq<u8>>,
    hdr: AgHeader,
    ch: Child,
    t2: Map<u64, Seq<u8>>,
    hdr2: AgHeader,
    b2: Seq<u8>,
    level: int,
    lim: int,
)
    requires
        v.bs >= 2048,
        level > 0,
        ch.st == CELL_REFINED,
        within(v, t, hdr, ch, level),
        cut(
            v,
            t,
            hdr,
            kids(treenode::node_level_of(v, t, ch.addr, level - 1)->Ok_0),
            t2,
            hdr2,
            kids(b2),
            level - 1,
            0,
            lim,
        ),
        b2.len() == v.bs,
        fmt::has_magic(b2, TREE_MAGIC),
        b2[16] == level - 1,
    ensures
        ({
            let t3 = treenode::node_to(t2, ch.addr, b2);
            &&& moved(v, t, hdr, t3, hdr2)
            &&& hush(v, t, hdr, t3, seq![ch], level, 0)
            &&& front(v, t, ch, t3, ch, level, lim)
        }),
{
    let t3 = treenode::node_to(t2, ch.addr, b2);
    let img = roottable::table_image(b2);
    tree_laws::lemma_image(b2, v.bs);
    assert(frees::idle(v, t2, hdr, ch.addr));
    frees::lemma_idle_place(v, t2, hdr, hdr2, ch.addr);
    tables::lemma_foreign_write(v, t2, hdr2, ch.addr, img);
    assert forall|x: u64| frees::idle(v, t, hdr, x) implies #[trigger] frees::idle(
        v,
        t3,
        hdr,
        x,
    ) by {
        assert(frees::idle(v, t2, hdr, x));
        frees::lemma_idle_place(v, t2, hdr, hdr2, x);
        assert(frees::idle(v, t3, hdr2, x));
        frees::lemma_idle_place(v, t3, hdr, hdr2, x);
    }
    assert forall|x: u64|
        frees::idle(v, t, hdr, x) && !under(v, t, seq![ch], level, 0, x) implies #[trigger] vol::rd(
        v,
        t3,
        x,
    ) == vol::rd(v, t, x) by {
        assert(seq![ch][0] == ch);
        lemma_hush_up(v, t, hdr, ch, t2, level, x);
        assert(tree_growth::below(v, t, ch, level, ch.addr));
    }
    assert forall|j: int| 0 <= j < 64 implies tree_growth::same_below(
        v,
        t2,
        t3,
        #[trigger] kids(b2)[j],
        level - 1,
    ) by {
        assert forall|x: u64| #[trigger] tree_growth::below(
            v,
            t2,
            kids(b2)[j],
            level - 1,
            x,
        ) implies vol::rd(v, t3, x) == vol::rd(v, t2, x) by {
            lemma_kid_below(v, t, hdr, ch, level, j, x);
        }
    }
    assert(treenode::node_level_of(v, t3, ch.addr, level - 1) == Ok::<Seq<u8>, FsError>(img));
    assert forall|j: int| 0 <= j < 64 implies #[trigger] tree_growth::kid(v, t3, ch, level, j)
        == kids(b2)[j] by {
        assert(treenode::node_at(img, j) == treenode::node_at(b2, j));
    }
    lemma_front_up(v, t, hdr, ch, t2, b2, t3, level, lim);
}

/// A node none of whose children changed.
proof fn lemma_node_left(
    v: Vol,
    t: Map<u64, Seq<u8>>,
    hdr: AgHeader,
    ch: Child,
    t2: Map<u64, Seq<u8>>,
    hdr2: AgHeader,
    level: int,
    lim: int,
)
    requires
        level > 0,
        ch.st == CELL_REFINED,
        within(v, t, hdr, ch, level),
        cut(
            v,
            t,
            hdr,
            kids(treenode::node_level_of(v, t, ch.addr, level - 1)->Ok_0),
            t2,
            hdr2,
            kids(treenode::node_level_of(v, t, ch.addr, level - 1)->Ok_0),
            level - 1,
            0,
            lim,
        ),
    ensures
        moved(v, t, hdr, t2, hdr2),
        hush(v, t, hdr, t2, seq![ch], level, 0),
        front(v, t, ch, t2, ch, level, lim),
{
    let b = treenode::node_level_of(v, t, ch.addr, level - 1)->Ok_0;
    lemma_hush_up(v, t, hdr, ch, t2, level, ch.addr);
    assert forall|x: u64|
        frees::idle(v, t, hdr, x) && !under(v, t, seq![ch], level, 0, x) implies #[trigger] vol::rd(
        v,
        t2,
        x,
    ) == vol::rd(v, t, x) by {
        assert(seq![ch][0] == ch);
        lemma_hush_up(v, t, hdr, ch, t2, level, x);
    }
    lemma_front_up(v, t, hdr, ch, t2, b, t2, level, lim);
}

/// A node that emptied is freed.
proof fn lemma_node_gone(
    v: Vol,
    t: Map<u64, Seq<u8>>,
    hdr: AgHeader,
    ch: Child,
    t2: Map<u64, Seq<u8>>,
    hdr2: AgHeader,
    b2: Seq<u8>,
    t3: Map<u64, Seq<u8>>,
    hdr3: AgHeader,
    level: int,
    lim: int,
)
    requires
        level > 0,
        ch.st == CELL_REFINED,
        within(v, t, hdr, ch, level),
        cut(
            v,
            t,
            hdr,
            kids(treenode::node_level_of(v, t, ch.addr, level - 1)->Ok_0),
            t2,
            hdr2,
            kids(b2),
            level - 1,
            0,
            lim,
        ),
        truncate::node_empty(b2),
        calm(v, t2, hdr2, t3, hdr3),
    ensures
        moved(v, t, hdr, t3, hdr3),
        hush(v, t, hdr, t3, seq![ch], level, 0),
        front(v, t, ch, t3, truncate::no_child(), level, lim),
{
    assert forall|x: u64| frees::idle(v, t, hdr, x) implies #[trigger] frees::idle(
        v,
        t3,
        hdr,
        x,
    ) by {
        assert(frees::idle(v, t2, hdr, x));
        frees::lemma_idle_place(v, t2, hdr, hdr2, x);
        assert(frees::idle(v, t3, hdr2, x));
        frees::lemma_idle_place(v, t3, hdr, hdr2, x);
    }
    assert forall|x: u64|
        frees::idle(v, t, hdr, x) && !under(v, t, seq![ch], level, 0, x) implies #[trigger] vol::rd(
        v,
        t3,
        x,
    ) == vol::rd(v, t, x) by {
        assert(seq![ch][0] == ch);
        lemma_hush_up(v, t, hdr, ch, t2, level, x);
        assert(frees::idle(v, t2, hdr, x));
        frees::lemma_idle_place(v, t2, hdr, hdr2, x);
        assert(vol::rd(v, t3, x) == vol::rd(v, t2, x));
    }
    assert forall|rel: int| 0 <= rel < treenode::cover(level) && rel < lim implies #[trigger] front_at(
        v,
        t,
        ch,
        t3,
        truncate::no_child(),
        level,
        rel,
    ) by {
        let c = treenode::cover(level - 1);
        lemma_rel_up(v, t, ch, t2, b2, level, lim, rel);
        treenode::lemma_cover_monotonic(level - 1, level - 1);
        tree_laws::lemma_part(rel, c);
        assert(treenode::node_at(b2, rel / c).st == CELL_FREE);
        reveal(front_at);
    }
}

// --- cutting a child ----------------------------------------------------------

/// What a step of cutting replaces a child by.
pub open spec fn cut_to(ch: Child, r: Option<Child>) -> Child {
    match r {
        None => ch,
        Some(c) => c,
    }
}

/// Nothing is cut.
proof fn lemma_uncut(v: Vol, t: Map<u64, Seq<u8>>, hdr: AgHeader, ch: Child, level: int, lim: int)
    requires
        tree_laws::settled(v, t, hdr.ag_num, hdr),
    ensures
        moved(v, t, hdr, t, hdr),
        hush(v, t, hdr, t, seq![ch], level, 0),
        front(v, t, ch, t, ch, level, lim),
{
    lemma_front_same(v, t, t, ch, level, lim);
}

/// Children none of which is cut.
proof fn lemma_uncut_all(
    v: Vol,
    t: Map<u64, Seq<u8>>,
    hdr: AgHeader,
    ks: Seq<Child>,
    level: int,
    i: int,
    lim: int,
)
    requires
        tree_laws::settled(v, t, hdr.ag_num, hdr),
    ensures
        cut(v, t, hdr, ks, t, hdr, ks, level, i, lim),
{
    assert forall|j: int| 0 <= j < ks.len() implies front(
        v,
        t,
        ks[j],
        t,
        #[trigger] ks[j],
        level,
        lim - j * treenode::cover(level),
    ) by {
        lemma_front_same(v, t, t, ks[j], level, lim - j * treenode::cover(level));
    }
}

/// Freeing alone cuts only what is gone.
proof fn lemma_calm_hush(
    v: Vol,
    t: Map<u64, Seq<u8>>,
    hdr: AgHeader,
    t1: Map<u64, Seq<u8>>,
    hdr1: AgHeader,
    ch: Child,
    level: int,
)
    requires
        calm(v, t, hdr, t1, hdr1),
    ensures
        moved(v, t, hdr, t1, hdr1),
        hush(v, t, hdr, t1, seq![ch], level, 0),
{
}

/// A run that is cut.
pub proof fn lemma_run_cut(v: Vol, p: Pool, hdr: AgHeader, ch: Child, level: int, keep: int) -> (hdr1:
    AgHeader)
    requires
        0 < keep,
        tree_laws::settled(v, p.t, hdr.ag_num, hdr),
        ch.st == CELL_FULL,
        within(v, p.t, hdr, ch, level),
        truncate::run_cut(v, p, ch.addr, ch.blocks as int, keep).1 is Ok,
    ensures
        ({
            let (p1, r1) = truncate::run_cut(v, p, ch.addr, ch.blocks as int, keep);
            &&& calm(v, p.t, hdr, p1.t, hdr1)
            &&& 0 <= r1->Ok_0 <= ch.blocks
            &&& front(
                v,
                p.t,
                ch,
                p1.t,
                Child { blocks: r1->Ok_0 as u32, ..ch },
                level,
                keep,
            )
        }),
{
    let blocks = ch.blocks as int;
    let (p1, r1) = truncate::run_cut(v, p, ch.addr, blocks, keep);
    let n = r1->Ok_0;
    let new = Child { blocks: n as u32, ..ch };
    truncate_laws::lemma_run_cut(v, p, ch.addr, blocks, keep);
    assert forall|rel: int| 0 <= rel < treenode::cover(level) && rel < keep implies #[trigger] front_at(
        v,
        p.t,
        ch,
        p1.t,
        new,
        level,
        rel,
    ) by {
        reveal(front_at);
    }
    if n < blocks {
        assert(tables::block_count(hdr) <= 0x1_0000_0000) by {
            fmt::lemma_ceil_div(hdr.length as int, 256);
        }
        tree_laws::lemma_run_address(ch.addr, blocks, ch.addr + n);
        lemma_freed(v, p, hdr, (ch.addr + n) as u64, blocks - n)
    } else {
        hdr
    }
}

/// A child that is cut.
#[verifier::rlimit(60)]
pub proof fn lemma_child_cut(
    v: Vol,
    p: Pool,
    hdr: AgHeader,
    ch: Child,
    level: int,
    cs: int,
    cutoff: int,
    acc: int,
) -> (hdr1: AgHeader)
    requires
        v.bs >= 2048,
        tree_laws::settled(v, p.t, hdr.ag_num, hdr),
        within(v, p.t, hdr, ch, level),
        truncate::child_cut(v, p, ch, level, cs, cutoff, acc).1 is Ok,
    ensures
        ({
            let (p1, r1) = truncate::child_cut(v, p, ch, level, cs, cutoff, acc);
            let ch1 = cut_to(ch, r1->Ok_0.0);
            &&& moved(v, p.t, hdr, p1.t, hdr1)
            &&& hush(v, p.t, hdr, p1.t, seq![ch], level, 0)
            &&& front(v, p.t, ch, p1.t, ch1, level, cutoff - cs)
            &&& r1->Ok_0.0 is Some ==> ch1.st < 4
        }),
    decreases level, 1int, 0int,
{
    let lim = cutoff - cs;
    let (p1, r1) = truncate::child_cut(v, p, ch, level, cs, cutoff, acc);
    if cs >= cutoff {
        if ch.st == CELL_FREE {
            lemma_uncut(v, p.t, hdr, ch, level, lim);
            hdr
        } else {
            let hdr1 = lemma_child_freed(v, p, hdr, ch, level);
            lemma_calm_hush(v, p.t, hdr, p1.t, hdr1, ch, level);
            hdr1
        }
    } else if cs + treenode::cover(level) <= cutoff || ch.st == CELL_FREE {
        lemma_uncut(v, p.t, hdr, ch, level, lim);
        hdr
    } else if ch.st == CELL_FULL {
        let hdr1 = lemma_run_cut(v, p, hdr, ch, level, lim);
        lemma_calm_hush(v, p.t, hdr, p1.t, hdr1, ch, level);
        hdr1
    } else {
        let b = treenode::node_level_of(v, p.t, ch.addr, level - 1)->Ok_0;
        lemma_kids_abreast(v, p.t, hdr, ch, level);
        let hdr2 = lemma_children_cut(v, p, hdr, b, level - 1, cs, cutoff, 0, acc, false);
        let (p2, r2) = truncate::children_cut(v, p, b, level - 1, cs, cutoff, 0, acc, false);
        let (b2, changed, _) = r2->Ok_0;
        if truncate::node_empty(b2) {
            let hdr3 = lemma_freed(v, p2, hdr2, ch.addr, 1);
            lemma_node_gone(v, p.t, hdr, ch, p2.t, hdr2, b2, p1.t, hdr3, level, lim);
            hdr3
        } else if changed {
            lemma_node_stored(v, p.t, hdr, ch, p2.t, hdr2, b2, level, lim);
            hdr2
        } else {
            lemma_node_left(v, p.t, hdr, ch, p2.t, hdr2, level, lim);
            hdr2
        }
    }
}

/// The children of a node that are cut.
#[verifier::rlimit(60)]
pub proof fn lemma_children_cut(
    v: Vol,
    p: Pool,
    hdr: AgHeader,
    b: Seq<u8>,
    level: int,
    ns: int,
    cutoff: int,
    i: int,
    acc: int,
    changed: bool,
) -> (hdr1: AgHeader)
    requires
        v.bs >= 2048,
        tree_laws::settled(v, p.t, hdr.ag_num, hdr),
        b.len() == v.bs,
        0 <= i,
        abreast(v, p.t, hdr, kids(b), level, i),
        truncate::children_cut(v, p, b, level, ns, cutoff, i, acc, changed).1 is Ok,
    ensures
        ({
            let (p1, r1) = truncate::children_cut(v, p, b, level, ns, cutoff, i, acc, changed);
            let (b1, changed1, _) = r1->Ok_0;
            &&& cut(v, p.t, hdr, kids(b), p1.t, hdr1, kids(b1), level, i, cutoff - ns)
            &&& b1.len() == b.len()
            &&& b1[16] == b[16]
            &&& fmt::has_magic(b1, TREE_MAGIC) == fmt::has_magic(b, TREE_MAGIC)
            &&& !changed1 ==> b1 == b && !changed
        }),
    decreases level, 2int, 64 - i,
{
    let lim = cutoff - ns;
    let ks = kids(b);
    if i >= 64 {
        lemma_uncut_all(v, p.t, hdr, ks, level, i, lim);
        hdr
    } else {
        let cs = ns + i * treenode::cover(level);
        assert(within(v, p.t, hdr, ks[i], level)) by {
            reveal(abreast);
        }
        let hdr1 = lemma_child_cut(v, p, hdr, ks[i], level, cs, cutoff, acc);
        let (p1, r1) = truncate::child_cut(v, p, ks[i], level, cs, cutoff, acc);
        let (o, sum) = r1->Ok_0;
        let c = cut_to(ks[i], o);
        assert(lim - i * treenode::cover(level) == cutoff - cs);
        lemma_one_cut(v, p.t, hdr, ks, p1.t, hdr1, c, level, i, lim);
        let b1 = match o {
            None => b,
            Some(_) => treenode::node_with(b, i, c),
        };
        let changed1 = changed || o is Some;
        if o is Some {
            tree_laws::lemma_node_with(b, i, c);
        }
        assert(kids(b1) =~= ks.update(i, c));
        let hdr2 = lemma_children_cut(
            v,
            p1,
            hdr1,
            b1,
            level,
            ns,
            cutoff,
            i + 1,
            sum,
            changed1,
        );
        let (p2, r2) = truncate::children_cut(
            v,
            p1,
            b1,
            level,
            ns,
            cutoff,
            i + 1,
            sum,
            changed1,
        );
        assert(truncate::children_cut(v, p, b, level, ns, cutoff, i, acc, changed) == (p2, r2));
        lemma_cut_twice(
            v,
            p.t,
            hdr,
            ks,
            p1.t,
            hdr1,
            kids(b1),
            p2.t,
            hdr2,
            kids(r2->Ok_0.0),
            level,
            i,
            lim,
        );
        hdr2
    }
}

// --- cutting a file -----------------------------------------------------------

/// The children of a root.
pub open spec fn root_kids(pl: Seq<u8>) -> Seq<Child> {
    Seq::new(ROOT_FANOUT as nat, |j: int| treenode::root_at(pl, j))
}

/// The children of a root that are cut.
#[verifier::rlimit(60)]
proof fn lemma_root_cut(
    v: Vol,
    p: Pool,
    hdr: AgHeader,
    pl: Seq<u8>,
    level: int,
    cutoff: int,
    i: int,
    acc: int,
) -> (hdr1: AgHeader)
    requires
        v.bs >= 2048,
        tree_laws::settled(v, p.t, hdr.ag_num, hdr),
        pl.len() == 128,
        0 <= i,
        abreast(v, p.t, hdr, root_kids(pl), level, i),
        truncate::root_cut(v, p, pl, level, cutoff, i, acc).1 is Ok,
    ensures
        ({
            let (p1, r1) = truncate::root_cut(v, p, pl, level, cutoff, i, acc);
            let pl1 = r1->Ok_0.0;
            &&& cut(v, p.t, hdr, root_kids(pl), p1.t, hdr1, root_kids(pl1), level, i, cutoff)
            &&& pl1.len() == 128
            &&& pl1[0] == pl[0]
        }),
    decreases ROOT_FANOUT - i,
{
    let ks = root_kids(pl);
    if i >= ROOT_FANOUT {
        lemma_uncut_all(v, p.t, hdr, ks, level, i, cutoff);
        hdr
    } else {
        let cs = i * treenode::cover(level);
        assert(within(v, p.t, hdr, ks[i], level)) by {
            reveal(abreast);
        }
        let hdr1 = lemma_child_cut(v, p, hdr, ks[i], level, cs, cutoff, acc);
        let (p1, r1) = truncate::child_cut(v, p, ks[i], level, cs, cutoff, acc);
        let (o, sum) = r1->Ok_0;
        let c = cut_to(ks[i], o);
        lemma_one_cut(v, p.t, hdr, ks, p1.t, hdr1, c, level, i, cutoff);
        let pl1 = match o {
            None => pl,
            Some(_) => treenode::root_with(pl, i, c),
        };
        if o is Some {
            tree_laws::lemma_root_with(pl, i, c);
        }
        assert(root_kids(pl1) =~= ks.update(i, c));
        let hdr2 = lemma_root_cut(v, p1, hdr1, pl1, level, cutoff, i + 1, sum);
        let (p2, r2) = truncate::root_cut(v, p1, pl1, level, cutoff, i + 1, sum);
        assert(truncate::root_cut(v, p, pl, level, cutoff, i, acc) == (p2, r2));
        lemma_cut_twice(
            v,
            p.t,
            hdr,
            ks,
            p1.t,
            hdr1,
            root_kids(pl1),
            p2.t,
            hdr2,
            root_kids(r2->Ok_0.0),
            level,
            i,
            cutoff,
        );
        hdr2
    }
}

/// A tree inside the group: its nodes read, are met once and are off the tables,
/// and its runs are in the group.
pub open spec fn tree_within(v: Vol, t: Map<u64, Seq<u8>>, hdr: AgHeader, pl: Seq<u8>) -> bool {
    &&& pl.len() == 128
    &&& pl[0] <= MAX_LEVEL
    &&& forall|i: int|
        0 <= i < ROOT_FANOUT ==> within(
            v,
            t,
            hdr,
            #[trigger] treenode::root_at(pl, i),
            pl[0] as int,
        )
    &&& tree_growth::apart(v, t, pl)
}

/// The children of the root of a tree inside the group are side by side.
pub proof fn lemma_root_abreast(v: Vol, t: Map<u64, Seq<u8>>, hdr: AgHeader, pl: Seq<u8>)
    requires
        tree_within(v, t, hdr, pl),
    ensures
        abreast(v, t, hdr, root_kids(pl), pl[0] as int, 0),
{
    let ks = root_kids(pl);
    let level = pl[0] as int;
    reveal(abreast);
    reveal(tree_growth::apart);
    assert forall|j: int| 0 <= j < ks.len() implies #[trigger] ks[j] == treenode::root_at(pl, j)
        && within(v, t, hdr, ks[j], level) by {
        assert(within(v, t, hdr, treenode::root_at(pl, j), level));
    }
    assert forall|j: int, x: u64|
        0 <= j < ks.len() && #[trigger] tree_growth::below(v, t, ks[j], level, x) implies frees::idle(
        v,
        t,
        hdr,
        x,
    ) by {
        lemma_below_idle(v, t, hdr, ks[j], level, x);
    }
    assert forall|j: int, k: int, x: u64|
        0 <= j < ks.len() && 0 <= k < ks.len() && #[trigger] tree_growth::below(
            v,
            t,
            ks[j],
            level,
            x,
        ) && #[trigger] tree_growth::below(v, t, ks[k], level, x) implies j == k by {
        assert(tree_growth::below(v, t, treenode::root_at(pl, j), level, x));
        assert(tree_growth::below(v, t, treenode::root_at(pl, k), level, x));
    }
}

/// Cutting a file with an extent tree at `cutoff` blocks: blocks before the cut
/// are mapped as before, every block that is neither a node of the tree nor one of
/// the tables' own holds what it held, the file's data with them, and the tables
/// stay sound. A block changes state only where it shares a smallest cell with a node of
/// the tree or a block mapped behind the cut, and every other block of the group keeps
/// its state.
#[verifier::rlimit(40)]
pub proof fn law_cutting_a_tree_keeps_the_front(
    v: Vol,
    p: Pool,
    hdr: AgHeader,
    m: Mp,
    cutoff: int,
) -> (hdr1: AgHeader)
    requires
        v.bs >= 2048,
        m.format == FMT_TREE,
        tree_laws::settled(v, p.t, hdr.ag_num, hdr),
        tree_within(v, p.t, hdr, m.payload),
        0 <= cutoff,
        truncate::truncated(v, p, m, cutoff).2 is Ok,
    ensures
        ({
            let (p1, m1, _) = truncate::truncated(v, p, m, cutoff);
            &&& m1.format == FMT_TREE
            &&& tables::same_place(hdr, hdr1)
            &&& tree_laws::settled(v, p1.t, hdr1.ag_num, hdr1)
            &&& forall|f: int|
                0 <= f < cutoff ==> tree_laws::address(
                    #[trigger] mapping::tree_map(v, p1.t, m1.payload, f),
                ) == tree_laws::address(mapping::tree_map(v, p.t, m.payload, f))
            &&& forall|x: u64|
                frees::idle(v, p.t, hdr, x) && !tree_growth::in_tree(v, p.t, m.payload, x)
                    ==> #[trigger] vol::rd(v, p1.t, x) == vol::rd(v, p.t, x)
            &&& forall|x: int|
                0 <= x < tables::block_count(hdr) && !let_go::near(
                    v,
                    p.t,
                    hdr,
                    tree_spared::tree_tail(v, p.t, m.payload, cutoff),
                    x,
                ) ==> #[trigger] tables::block_state(v, p1.t, hdr, x) == tables::block_state(
                    v,
                    p.t,
                    hdr,
                    x,
                )
        }),
{
    tree_spared::lemma_tree_cut(v, p, hdr, m, cutoff);
    let pl = m.payload;
    let level = pl[0] as int;
    let t = p.t;
    let c = treenode::cover(level);
    let (p1, m1, _) = truncate::truncated(v, p, m, cutoff);
    let pl1 = m1.payload;
    lemma_root_abreast(v, t, hdr, pl);
    let hdr1 = lemma_root_cut(v, p, hdr, pl, level, cutoff, 0, 0);
    treenode::lemma_cover_monotonic(level, level);
    assert forall|f: int| 0 <= f < cutoff implies tree_laws::address(
        #[trigger] mapping::tree_map(v, p1.t, pl1, f),
    ) == tree_laws::address(mapping::tree_map(v, t, pl, f)) by {
        let j = f / c;
        tree_laws::lemma_place(f, c, j);
        if j < ROOT_FANOUT {
            let lim = cutoff - j * c;
            assert(front(v, t, root_kids(pl)[j], p1.t, root_kids(pl1)[j], level, lim));
            assert(front_at(v, t, root_kids(pl)[j], p1.t, root_kids(pl1)[j], level, f % c));
            reveal(front_at);
        }
    }
    assert forall|x: u64|
        frees::idle(v, t, hdr, x) && !tree_growth::in_tree(v, t, pl, x) implies #[trigger] vol::rd(
        v,
        p1.t,
        x,
    ) == vol::rd(v, t, x) by {
        if under(v, t, root_kids(pl), level, 0, x) {
            let j = choose|j: int|
                0 <= j < root_kids(pl).len() && tree_growth::below(
                    v,
                    t,
                    #[trigger] root_kids(pl)[j],
                    level,
                    x,
                );
            assert(tree_growth::below(v, t, treenode::root_at(pl, j), level, x));
        }
    }
    hdr1
}

// --- freeing a file -----------------------------------------------------------

/// Block `x` of the group is free, and inside it.
pub open spec fn got(v: Vol, t: Map<u64, Seq<u8>>, hdr: AgHeader, x: u64) -> bool {
    fmt::addr_local(x) < tables::block_count(hdr) && free_at(v, t, hdr, x)
}

/// What offset `rel` of a child mapped is free.
#[verifier::opaque]
pub open spec fn gone_at(
    v: Vol,
    t: Map<u64, Seq<u8>>,
    hdr: AgHeader,
    ch: Child,
    t1: Map<u64, Seq<u8>>,
    level: int,
    rel: int,
) -> bool {
    let a = tree_laws::address(mapping::child_map(v, t, ch, rel, level));
    a is Some ==> got(v, t1, hdr, a->Some_0)
}

/// What a child mapped, and the nodes below it, are free.
pub open spec fn gone(
    v: Vol,
    t: Map<u64, Seq<u8>>,
    hdr: AgHeader,
    ch: Child,
    t1: Map<u64, Seq<u8>>,
    level: int,
) -> bool {
    &&& forall|x: u64| #[trigger]
        tree_growth::below(v, t, ch, level, x) ==> got(v, t1, hdr, x)
    &&& forall|rel: int|
        0 <= rel < treenode::cover(level) ==> #[trigger] gone_at(v, t, hdr, ch, t1, level, rel)
}

/// What is gone stays so.
proof fn lemma_gone_stays(
    v: Vol,
    t: Map<u64, Seq<u8>>,
    hdr: AgHeader,
    ch: Child,
    t1: Map<u64, Seq<u8>>,
    hdr1: AgHeader,
    t2: Map<u64, Seq<u8>>,
    hdr2: AgHeader,
    level: int,
)
    requires
        gone(v, t, hdr, ch, t1, level),
        tables::same_place(hdr, hdr1),
        calm(v, t1, hdr1, t2, hdr2),
    ensures
        gone(v, t, hdr, ch, t2, level),
{
    assert forall|x: u64| got(v, t1, hdr, x) implies #[trigger] got(v, t2, hdr, x) by {
        lemma_free_place(v, t1, hdr, hdr1, x);
        assert(free_at(v, t2, hdr1, x));
        lemma_free_place(v, t2, hdr, hdr1, x);
    }
    assert forall|rel: int| 0 <= rel < treenode::cover(level) implies #[trigger] gone_at(
        v,
        t,
        hdr,
        ch,
        t2,
        level,
        rel,
    ) by {
        assert(gone_at(v, t, hdr, ch, t1, level, rel));
        reveal(gone_at);
    }
}

/// What is gone of a child whose nodes had changed nothing yet.
proof fn lemma_gone_since(
    v: Vol,
    t: Map<u64, Seq<u8>>,
    hdr: AgHeader,
    ch: Child,
    t1: Map<u64, Seq<u8>>,
    hdr1: AgHeader,
    t2: Map<u64, Seq<u8>>,
    level: int,
)
    requires
        within(v, t, hdr, ch, level),
        calm(v, t, hdr, t1, hdr1),
        gone(v, t1, hdr1, ch, t2, level),
    ensures
        gone(v, t, hdr, ch, t2, level),
{
    assert forall|x: u64| #[trigger] tree_growth::below(v, t, ch, level, x) implies vol::rd(v, t1, x)
        == vol::rd(v, t, x) by {
        lemma_below_idle(v, t, hdr, ch, level, x);
    }
    assert(tree_growth::same_below(v, t, t1, ch, level));
    assert forall|x: u64| #[trigger] tree_growth::below(v, t, ch, level, x) implies got(
        v,
        t2,
        hdr,
        x,
    ) by {
        tree_growth::lemma_same_nodes(v, t, t1, ch, level, x);
        assert(tree_growth::below(v, t1, ch, level, x));
        lemma_free_place(v, t2, hdr, hdr1, x);
    }
    assert forall|rel: int| 0 <= rel < treenode::cover(level) implies #[trigger] gone_at(
        v,
        t,
        hdr,
        ch,
        t2,
        level,
        rel,
    ) by {
        assert(gone_at(v, t1, hdr1, ch, t2, level, rel));
        tree_growth::lemma_map_kept(v, t, t1, ch, level, rel);
        reveal(gone_at);
        let a = tree_laws::address(mapping::child_map(v, t, ch, rel, level));
        if a is Some {
            lemma_free_place(v, t2, hdr, hdr1, a->Some_0);
        }
    }
}

/// Freeing what a child maps frees it all.
#[verifier::rlimit(40)]
proof fn lemma_child_gone(v: Vol, p: Pool, hdr: AgHeader, ch: Child, level: int)
    requires
        tree_laws::settled(v, p.t, hdr.ag_num, hdr),
        within(v, p.t, hdr, ch, level),
        truncate::child_freed(v, p, ch, level).1 is Ok,
    ensures
        gone(v, p.t, hdr, ch, truncate::child_freed(v, p, ch, level).0.t, level),
    decreases level, 1int, 0int,
{
    let t = p.t;
    let t1 = truncate::child_freed(v, p, ch, level).0.t;
    if ch.st == CELL_FREE {
        reveal(gone_at);
    } else if ch.st == CELL_FULL {
        let _ = lemma_freed(v, p, hdr, ch.addr, ch.blocks as int);
        assert(tables::block_count(hdr) <= 0x1_0000_0000) by {
            fmt::lemma_ceil_div(hdr.length as int, 256);
        }
        assert forall|rel: int| 0 <= rel < treenode::cover(level) implies #[trigger] gone_at(
            v,
            t,
            hdr,
            ch,
            t1,
            level,
            rel,
        ) by {
            reveal(gone_at);
            if rel < ch.blocks {
                tree_laws::lemma_run_address(ch.addr, ch.blocks as int, ch.addr + rel);
                assert(free_at(v, t1, hdr, (ch.addr + rel) as u64));
            }
        }
    } else {
        let b = treenode::node_level_of(v, t, ch.addr, level - 1)->Ok_0;
        assert forall|j: int| 0 <= j < 64 implies within(
            v,
            t,
            hdr,
            #[trigger] treenode::node_at(b, j),
            level - 1,
        ) by {
            assert(within(v, t, hdr, tree_growth::kid(v, t, ch, level, j), level - 1));
        }
        let hdr2 = lemma_children_freed(v, p, hdr, b, level - 1, 0, 0);
        lemma_children_gone(v, p, hdr, b, level - 1, 0, 0);
        let p2 = truncate::children_freed(v, p, b, level - 1, 0, 0).0;
        let hdr3 = lemma_freed(v, p2, hdr2, ch.addr, 1);
        assert(free_at(v, t1, hdr2, ch.addr));
        lemma_free_place(v, t1, hdr, hdr2, ch.addr);
        assert forall|j: int| 0 <= j < 64 implies gone(
            v,
            t,
            hdr,
            #[trigger] tree_growth::kid(v, t, ch, level, j),
            t1,
            level - 1,
        ) by {
            assert(gone(v, t, hdr, treenode::node_at(b, j), p2.t, level - 1));
            lemma_gone_stays(
                v,
                t,
                hdr,
                treenode::node_at(b, j),
                p2.t,
                hdr2,
                t1,
                hdr3,
                level - 1,
            );
        }
        lemma_gone_up(v, t, hdr, ch, t1, level);
    }
}

/// A child is gone with its node and the children of it.
proof fn lemma_gone_up(
    v: Vol,
    t: Map<u64, Seq<u8>>,
    hdr: AgHeader,
    ch: Child,
    t1: Map<u64, Seq<u8>>,
    level: int,
)
    requires
        level > 0,
        ch.st == CELL_REFINED,
        treenode::node_level_of(v, t, ch.addr, level - 1) is Ok,
        got(v, t1, hdr, ch.addr),
        forall|j: int|
            0 <= j < 64 ==> gone(
                v,
                t,
                hdr,
                #[trigger] tree_growth::kid(v, t, ch, level, j),
                t1,
                level - 1,
            ),
    ensures
        gone(v, t, hdr, ch, t1, level),
{
    assert forall|x: u64| #[trigger] tree_growth::below(v, t, ch, level, x) implies got(
        v,
        t1,
        hdr,
        x,
    ) by {
        if x != ch.addr {
            let j = choose|j: int|
                0 <= j < 64 && tree_growth::below(
                    v,
                    t,
                    #[trigger] tree_growth::kid(v, t, ch, level, j),
                    level - 1,
                    x,
                );
            assert(gone(v, t, hdr, tree_growth::kid(v, t, ch, level, j), t1, level - 1));
        }
    }
    assert forall|rel: int| 0 <= rel < treenode::cover(level) implies #[trigger] gone_at(
        v,
        t,
        hdr,
        ch,
        t1,
        level,
        rel,
    ) by {
        let c = treenode::cover(level - 1);
        treenode::lemma_cover_monotonic(level - 1, level - 1);
        tree_laws::lemma_part(rel, c);
        let k = tree_growth::kid(v, t, ch, level, rel / c);
        assert(gone_at(v, t, hdr, k, t1, level - 1, rel % c));
        assert(mapping::child_map(v, t, ch, rel, level) == mapping::child_map(
            v,
            t,
            k,
            rel % c,
            level - 1,
        ));
        reveal(gone_at);
    }
}

/// Freeing what the children of a node map frees it all.
#[verifier::rlimit(40)]
proof fn lemma_children_gone(v: Vol, p: Pool, hdr: AgHeader, b: Seq<u8>, level: int, i: int, acc: int)
    requires
        tree_laws::settled(v, p.t, hdr.ag_num, hdr),
        0 <= i,
        forall|j: int|
            i <= j < 64 ==> within(v, p.t, hdr, #[trigger] treenode::node_at(b, j), level),
        truncate::children_freed(v, p, b, level, i, acc).1 is Ok,
    ensures
        forall|j: int|
            i <= j < 64 ==> gone(
                v,
                p.t,
                hdr,
                #[trigger] treenode::node_at(b, j),
                truncate::children_freed(v, p, b, level, i, acc).0.t,
                level,
            ),
    decreases level, 2int, 64 - i,
{
    if i < 64 {
        let t = p.t;
        let ch = treenode::node_at(b, i);
        let hdr1 = lemma_child_freed(v, p, hdr, ch, level);
        lemma_child_gone(v, p, hdr, ch, level);
        let (p1, r1) = truncate::child_freed(v, p, ch, level);
        assert forall|j: int| i + 1 <= j < 64 implies within(
            v,
            p1.t,
            hdr1,
            #[trigger] treenode::node_at(b, j),
            level,
        ) by {
            lemma_within_calm(v, t, hdr, p1.t, hdr1, treenode::node_at(b, j), level);
        }
        let sum = acc + r1->Ok_0;
        let hdr2 = lemma_children_freed(v, p1, hdr1, b, level, i + 1, sum);
        lemma_children_gone(v, p1, hdr1, b, level, i + 1, sum);
        let p2 = truncate::children_freed(v, p1, b, level, i + 1, sum).0;
        assert forall|j: int| i <= j < 64 implies gone(
            v,
            t,
            hdr,
            #[trigger] treenode::node_at(b, j),
            p2.t,
            level,
        ) by {
            let k = treenode::node_at(b, j);
            if j == i {
                lemma_gone_stays(v, t, hdr, k, p1.t, hdr1, p2.t, hdr2, level);
            } else {
                lemma_gone_since(v, t, hdr, k, p1.t, hdr1, p2.t, level);
            }
        }
    }
}

/// Freeing what a root maps frees it all.
#[verifier::rlimit(40)]
proof fn lemma_root_gone(v: Vol, p: Pool, hdr: AgHeader, pl: Seq<u8>, i: int) -> (hdr1: AgHeader)
    requires
        tree_laws::settled(v, p.t, hdr.ag_num, hdr),
        0 <= i,
        forall|j: int|
            i <= j < ROOT_FANOUT ==> within(
                v,
                p.t,
                hdr,
                #[trigger] treenode::root_at(pl, j),
                pl[0] as int,
            ),
        truncate::root_freed(v, p, pl, i).1 is Ok,
    ensures
        calm(v, p.t, hdr, truncate::root_freed(v, p, pl, i).0.t, hdr1),
        forall|j: int|
            i <= j < ROOT_FANOUT ==> gone(
                v,
                p.t,
                hdr,
                #[trigger] treenode::root_at(pl, j),
                truncate::root_freed(v, p, pl, i).0.t,
                pl[0] as int,
            ),
    decreases ROOT_FANOUT - i,
{
    if i < ROOT_FANOUT {
        let t = p.t;
        let level = pl[0] as int;
        let ch = treenode::root_at(pl, i);
        let hdr1 = lemma_child_freed(v, p, hdr, ch, level);
        lemma_child_gone(v, p, hdr, ch, level);
        let p1 = truncate::child_freed(v, p, ch, level).0;
        assert forall|j: int| i + 1 <= j < ROOT_FANOUT implies within(
            v,
            p1.t,
            hdr1,
            #[trigger] treenode::root_at(pl, j),
            level,
        ) by {
            lemma_within_calm(v, t, hdr, p1.t, hdr1, treenode::root_at(pl, j), level);
        }
        let hdr2 = lemma_root_gone(v, p1, hdr1, pl, i + 1);
        let p2 = truncate::root_freed(v, p1, pl, i + 1).0;
        lemma_calm_twice(v, t, hdr, p1.t, hdr1, p2.t, hdr2);
        assert forall|j: int| i <= j < ROOT_FANOUT implies gone(
            v,
            t,
            hdr,
            #[trigger] treenode::root_at(pl, j),
            p2.t,
            level,
        ) by {
            let k = treenode::root_at(pl, j);
            if j == i {
                lemma_gone_stays(v, t, hdr, k, p1.t, hdr1, p2.t, hdr2, level);
            } else {
                lemma_gone_since(v, t, hdr, k, p1.t, hdr1, p2.t, level);
            }
        }
        hdr2
    } else {
        hdr
    }
}

/// Freeing a file with an extent tree frees every block that it mapped and every
/// node of the tree, and leaves sound tables. A block changes state only where it shares
/// a smallest cell with one of these, and every other block of the group keeps its
/// state.
#[verifier::rlimit(40)]
pub proof fn law_freeing_a_tree_frees_its_blocks(v: Vol, p: Pool, hdr: AgHeader, m: Mp) -> (hdr1:
    AgHeader)
    requires
        m.format == FMT_TREE,
        tree_laws::settled(v, p.t, hdr.ag_num, hdr),
        tree_within(v, p.t, hdr, m.payload),
        truncate::all_freed(v, p, m).1 is Ok,
    ensures
        ({
            let t1 = truncate::all_freed(v, p, m).0.t;
            &&& tables::same_place(hdr, hdr1)
            &&& tree_laws::settled(v, t1, hdr1.ag_num, hdr1)
            &&& forall|f: int|
                0 <= f && tree_laws::address(
                    #[trigger] mapping::tree_map(v, p.t, m.payload, f),
                ) is Some ==> free_at(
                    v,
                    t1,
                    hdr,
                    tree_laws::address(mapping::tree_map(v, p.t, m.payload, f))->Some_0,
                )
            &&& forall|x: u64| #[trigger]
                tree_growth::in_tree(v, p.t, m.payload, x) ==> free_at(v, t1, hdr, x)
            &&& forall|x: int|
                0 <= x < tables::block_count(hdr) && !let_go::near(
                    v,
                    p.t,
                    hdr,
                    tree_spared::tree_tail(v, p.t, m.payload, 0),
                    x,
                ) ==> #[trigger] tables::block_state(v, t1, hdr, x) == tables::block_state(
                    v,
                    p.t,
                    hdr,
                    x,
                )
        }),
{
    tree_spared::lemma_tree_freed(v, p, hdr, m);
    let pl = m.payload;
    let level = pl[0] as int;
    let c = treenode::cover(level);
    let t = p.t;
    let t1 = truncate::all_freed(v, p, m).0.t;
    let hdr1 = lemma_root_gone(v, p, hdr, pl, 0);
    treenode::lemma_cover_monotonic(level, level);
    assert forall|f: int|
        0 <= f && tree_laws::address(#[trigger] mapping::tree_map(v, t, pl, f)) is Some implies free_at(
        v,
        t1,
        hdr,
        tree_laws::address(mapping::tree_map(v, t, pl, f))->Some_0,
    ) by {
        let j = f / c;
        tree_laws::lemma_place(f, c, j);
        if j < ROOT_FANOUT {
            assert(gone(v, t, hdr, treenode::root_at(pl, j), t1, level));
            assert(gone_at(v, t, hdr, treenode::root_at(pl, j), t1, level, f % c));
            reveal(gone_at);
        }
    }
    assert forall|x: u64| #[trigger] tree_growth::in_tree(v, t, pl, x) implies free_at(
        v,
        t1,
        hdr,
        x,
    ) by {
        let j = choose|j: int|
            0 <= j < ROOT_FANOUT && tree_growth::below(
                v,
                t,
                #[trigger] treenode::root_at(pl, j),
                level,
                x,
            );
        assert(gone(v, t, hdr, treenode::root_at(pl, j), t1, level));
    }
    hdr1
}

} // verus!
