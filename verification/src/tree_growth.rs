//! Extent trees that grow: what a file maps it keeps, and the range asked for
//! becomes mapped, in one piece or, where no run of that length is free, in several.

use crate::allocator::Pool;
use crate::error::FsError;
use crate::extent::{Par, Work};
use crate::fmt::{CELL_FREE, CELL_FULL, CELL_REFINED, FMT_TREE, ROOT_FANOUT, TREE_MAGIC};
use crate::header::AgHeader;
use crate::mapping::Mp;
use crate::treenode::{Child, MAX_LEVEL};
use crate::vol::Vol;
use vstd::prelude::*;

use crate::allocator;
use crate::allocator_laws;
use crate::extent;
use crate::fmt;
use crate::frees;
use crate::fs;
use crate::grants;
use crate::mapping;
use crate::spares;
use crate::tables;
use crate::tree_laws;
use crate::treenode;
use crate::vol;

verus! {

// --- trees in order -----------------------------------------------------------

/// Child `j` of the node that child `ch` of level `level` names.
pub open spec fn kid(v: Vol, t: Map<u64, Seq<u8>>, ch: Child, level: int, j: int) -> Child {
    treenode::node_at(treenode::node_level_of(v, t, ch.addr, level - 1)->Ok_0, j)
}

/// Block `x` is a node below child `ch` of level `level`.
pub open spec fn below(v: Vol, t: Map<u64, Seq<u8>>, ch: Child, level: int, x: u64) -> bool
    decreases level,
{
    &&& ch.st == CELL_REFINED
    &&& level > 0
    &&& (x == ch.addr || exists|j: int|
        0 <= j < 64 && below(v, t, #[trigger] kid(v, t, ch, level, j), level - 1, x))
}

/// No node below `ch` is met twice on the way from it.
#[verifier::opaque]
pub open spec fn lone(v: Vol, t: Map<u64, Seq<u8>>, ch: Child, level: int) -> bool {
    &&& forall|j: int, x: u64|
        0 <= j < 64 && #[trigger] below(v, t, kid(v, t, ch, level, j), level - 1, x) ==> x
            != ch.addr
    &&& forall|j: int, k: int, x: u64|
        0 <= j < 64 && 0 <= k < 64 && #[trigger] below(
            v,
            t,
            kid(v, t, ch, level, j),
            level - 1,
            x,
        ) && #[trigger] below(v, t, kid(v, t, ch, level, k), level - 1, x) ==> j == k
}

/// The blocks of a run are in use.
pub open spec fn run_safe(v: Vol, t: Map<u64, Seq<u8>>, hdr: AgHeader, addr: u64, n: int) -> bool {
    &&& addr + n - 1 <= u64::MAX
    &&& forall|x: u64| addr <= x < addr + n ==> #[trigger] spares::kept_safe(v, t, hdr, x)
}

/// A child of level `level` in order: its nodes read, are in use and are met
/// once, and what it maps is in use.
pub open spec fn tidy(v: Vol, t: Map<u64, Seq<u8>>, hdr: AgHeader, ch: Child, level: int) -> bool
    decreases level,
{
    if ch.st == CELL_FREE {
        true
    } else if ch.st == CELL_FULL {
        run_safe(v, t, hdr, ch.addr, ch.blocks as int)
    } else {
        &&& ch.st == CELL_REFINED
        &&& level > 0
        &&& spares::kept_safe(v, t, hdr, ch.addr)
        &&& treenode::node_level_of(v, t, ch.addr, level - 1) matches Ok(b) && b.len() == v.bs
        &&& forall|j: int|
            0 <= j < 64 ==> tidy(v, t, hdr, #[trigger] kid(v, t, ch, level, j), level - 1)
        &&& lone(v, t, ch, level)
    }
}

/// The nodes below a child in order are in use.
proof fn lemma_below_safe(v: Vol, t: Map<u64, Seq<u8>>, hdr: AgHeader, ch: Child, level: int, x: u64)
    requires
        tidy(v, t, hdr, ch, level),
        below(v, t, ch, level, x),
    ensures
        spares::kept_safe(v, t, hdr, x),
    decreases level,
{
    if x != ch.addr {
        let j = choose|j: int|
            0 <= j < 64 && below(v, t, #[trigger] kid(v, t, ch, level, j), level - 1, x);
        lemma_below_safe(v, t, hdr, kid(v, t, ch, level, j), level - 1, x);
    }
}

/// What a child in order maps is in use.
pub proof fn lemma_mapped_safe(
    v: Vol,
    t: Map<u64, Seq<u8>>,
    hdr: AgHeader,
    ch: Child,
    level: int,
    rel: int,
)
    requires
        tidy(v, t, hdr, ch, level),
        0 <= rel < treenode::cover(level),
    ensures
        tree_laws::address(mapping::child_map(v, t, ch, rel, level)) matches Some(a)
            ==> spares::kept_safe(v, t, hdr, a),
    decreases level,
{
    if ch.st == CELL_REFINED {
        let c = treenode::cover(level - 1);
        treenode::lemma_cover_monotonic(level - 1, level - 1);
        tree_laws::lemma_part(rel, c);
        let k = kid(v, t, ch, level, rel / c);
        assert(tidy(v, t, hdr, k, level - 1));
        lemma_mapped_safe(v, t, hdr, k, level - 1, rel % c);
    } else if ch.st == CELL_FULL && rel < ch.blocks && ch.addr + rel <= u64::MAX {
        assert(spares::kept_safe(v, t, hdr, (ch.addr + rel) as u64));
    }
}

/// Blocks in use stay in use.
pub open spec fn stays(v: Vol, t: Map<u64, Seq<u8>>, hdr: AgHeader, t1: Map<u64, Seq<u8>>, hdr1: AgHeader) -> bool {
    forall|x: u64|
        spares::kept_safe(v, t, hdr, x) ==> #[trigger] spares::kept_safe(v, t1, hdr1, x)
}

/// The nodes below a child hold what they held.
pub open spec fn same_below(v: Vol, t: Map<u64, Seq<u8>>, t1: Map<u64, Seq<u8>>, ch: Child, level: int) -> bool {
    forall|x: u64|
        #![trigger below(v, t, ch, level, x)]
        #![trigger vol::rd(v, t1, x)]
        below(v, t, ch, level, x) ==> vol::rd(v, t1, x) == vol::rd(v, t, x)
}

/// The parts of a child whose nodes hold what they held.
pub proof fn lemma_same_kid(v: Vol, t: Map<u64, Seq<u8>>, t1: Map<u64, Seq<u8>>, ch: Child, level: int, j: int)
    requires
        same_below(v, t, t1, ch, level),
        ch.st == CELL_REFINED,
        level > 0,
        0 <= j < 64,
    ensures
        treenode::node_level_of(v, t1, ch.addr, level - 1) == treenode::node_level_of(
            v,
            t,
            ch.addr,
            level - 1,
        ),
        kid(v, t1, ch, level, j) == kid(v, t, ch, level, j),
        same_below(v, t, t1, kid(v, t, ch, level, j), level - 1),
{
    assert(below(v, t, ch, level, ch.addr));
    let k = kid(v, t, ch, level, j);
    assert forall|x: u64| below(v, t, k, level - 1, x) implies #[trigger] vol::rd(v, t1, x)
        == vol::rd(v, t, x) by {
        assert(below(v, t, ch, level, x));
    }
}

/// A child whose nodes hold what they held has the same nodes.
pub proof fn lemma_same_nodes(v: Vol, t: Map<u64, Seq<u8>>, t1: Map<u64, Seq<u8>>, ch: Child, level: int, x: u64)
    requires
        same_below(v, t, t1, ch, level),
    ensures
        below(v, t1, ch, level, x) == below(v, t, ch, level, x),
    decreases level,
{
    if ch.st == CELL_REFINED && level > 0 {
        assert forall|j: int| 0 <= j < 64 implies kid(v, t1, ch, level, j) == #[trigger] kid(
            v,
            t,
            ch,
            level,
            j,
        ) && below(v, t1, kid(v, t, ch, level, j), level - 1, x) == below(
            v,
            t,
            kid(v, t, ch, level, j),
            level - 1,
            x,
        ) by {
            lemma_same_kid(v, t, t1, ch, level, j);
            lemma_same_nodes(v, t, t1, kid(v, t, ch, level, j), level - 1, x);
        }
        assert forall|j: int| 0 <= j < 64 implies #[trigger] kid(v, t1, ch, level, j) == kid(
            v,
            t,
            ch,
            level,
            j,
        ) by {
            lemma_same_kid(v, t, t1, ch, level, j);
        }
        if below(v, t1, ch, level, x) && x != ch.addr {
            let j = choose|j: int|
                0 <= j < 64 && below(v, t1, #[trigger] kid(v, t1, ch, level, j), level - 1, x);
            assert(below(v, t, kid(v, t, ch, level, j), level - 1, x));
        }
        if below(v, t, ch, level, x) && x != ch.addr {
            let j = choose|j: int|
                0 <= j < 64 && below(v, t, #[trigger] kid(v, t, ch, level, j), level - 1, x);
            assert(below(v, t1, kid(v, t1, ch, level, j), level - 1, x));
        }
    }
}

/// A child in order whose nodes hold what they held stays in order.
pub proof fn lemma_tidy_kept(
    v: Vol,
    t: Map<u64, Seq<u8>>,
    hdr: AgHeader,
    t1: Map<u64, Seq<u8>>,
    hdr1: AgHeader,
    ch: Child,
    level: int,
)
    requires
        tidy(v, t, hdr, ch, level),
        stays(v, t, hdr, t1, hdr1),
        same_below(v, t, t1, ch, level),
    ensures
        tidy(v, t1, hdr1, ch, level),
    decreases level,
{
    if ch.st == CELL_REFINED {
        lemma_same_kid(v, t, t1, ch, level, 0);
        assert forall|j: int| 0 <= j < 64 implies tidy(
            v,
            t1,
            hdr1,
            #[trigger] kid(v, t1, ch, level, j),
            level - 1,
        ) by {
            lemma_same_kid(v, t, t1, ch, level, j);
            assert(tidy(v, t, hdr, kid(v, t, ch, level, j), level - 1));
            lemma_tidy_kept(v, t, hdr, t1, hdr1, kid(v, t, ch, level, j), level - 1);
        }
        assert(lone(v, t1, ch, level)) by {
            reveal(lone);
            assert forall|j: int, x: u64|
                0 <= j < 64 && #[trigger] below(
                    v,
                    t1,
                    kid(v, t1, ch, level, j),
                    level - 1,
                    x,
                ) implies below(v, t, kid(v, t, ch, level, j), level - 1, x) by {
                lemma_same_kid(v, t, t1, ch, level, j);
                lemma_same_nodes(v, t, t1, kid(v, t, ch, level, j), level - 1, x);
            }
        }
    }
}

/// A child whose nodes hold what they held maps what it mapped.
pub proof fn lemma_map_kept(
    v: Vol,
    t: Map<u64, Seq<u8>>,
    t1: Map<u64, Seq<u8>>,
    ch: Child,
    level: int,
    rel: int,
)
    requires
        same_below(v, t, t1, ch, level),
        0 <= rel < treenode::cover(level),
    ensures
        mapping::child_map(v, t1, ch, rel, level) == mapping::child_map(v, t, ch, rel, level),
    decreases level,
{
    if ch.st == CELL_REFINED && level > 0 {
        let c = treenode::cover(level - 1);
        treenode::lemma_cover_monotonic(level - 1, level - 1);
        tree_laws::lemma_part(rel, c);
        lemma_same_kid(v, t, t1, ch, level, rel / c);
        lemma_map_kept(v, t, t1, kid(v, t, ch, level, rel / c), level - 1, rel % c);
    }
}

// --- what growing does --------------------------------------------------------

/// What becomes of offset `rel` of a child that grows over `lo` to `hi`. Where a run
/// is put there, counted as from offset 0 on, the range is mapped to that run and
/// nothing else changes. Else what was mapped before is mapped to the same block; in
/// the range, and there alone, it is mapped; and a block that is new to it was not in
/// use and is no node below it.
#[verifier::opaque]
pub open spec fn grew_at(
    v: Vol,
    t: Map<u64, Seq<u8>>,
    hdr: AgHeader,
    ch: Child,
    t1: Map<u64, Seq<u8>>,
    ch1: Child,
    level: int,
    lo: int,
    hi: int,
    put: Option<int>,
    rel: int,
) -> bool {
    let a = tree_laws::address(mapping::child_map(v, t, ch, rel, level));
    let a1 = tree_laws::address(mapping::child_map(v, t1, ch1, rel, level));
    if put is Some {
        a1 == if lo <= rel < hi {
            Some((put->Some_0 + rel) as u64)
        } else {
            a
        }
    } else {
        &&& a is Some ==> a1 == a
        &&& lo <= rel < hi ==> a1 is Some
        &&& a is None && a1 is Some ==> lo <= rel < hi && !spares::kept_safe(
            v,
            t,
            hdr,
            a1->Some_0,
        ) && !below(v, t1, ch1, level, a1->Some_0)
    }
}

/// What is put at an offset, seen from `d` blocks on.
pub open spec fn from_on(put: Option<int>, d: int) -> Option<int> {
    match put {
        None => None,
        Some(b) => Some(b + d),
    }
}

/// What growing over `lo` to `hi` does to a child.
pub open spec fn grew(
    v: Vol,
    t: Map<u64, Seq<u8>>,
    hdr: AgHeader,
    ch: Child,
    t1: Map<u64, Seq<u8>>,
    hdr1: AgHeader,
    ch1: Child,
    level: int,
    lo: int,
    hi: int,
    put: Option<int>,
) -> bool {
    &&& tidy(v, t1, hdr1, ch1, level)
    &&& forall|x: u64| #[trigger]
        below(v, t1, ch1, level, x) ==> below(v, t, ch, level, x) || !spares::kept_safe(
            v,
            t,
            hdr,
            x,
        )
    &&& forall|rel: int|
        0 <= rel < treenode::cover(level) ==> #[trigger] grew_at(
            v,
            t,
            hdr,
            ch,
            t1,
            ch1,
            level,
            lo,
            hi,
            put,
            rel,
        )
}

/// Blocks in use stay in use and hold what they held, but for the nodes below a
/// child and the node that holds it.
pub open spec fn frame(
    v: Vol,
    t: Map<u64, Seq<u8>>,
    hdr: AgHeader,
    t1: Map<u64, Seq<u8>>,
    hdr1: AgHeader,
    ch: Child,
    level: int,
    own: Option<u64>,
) -> bool {
    &&& stays(v, t, hdr, t1, hdr1)
    &&& forall|x: u64|
        spares::kept_safe(v, t, hdr, x) && !below(v, t, ch, level, x) && own != Some(x)
            ==> #[trigger] vol::rd(v, t1, x) == vol::rd(v, t, x)
}

/// Growing in two steps.
pub proof fn lemma_grew_twice(
    v: Vol,
    t: Map<u64, Seq<u8>>,
    hdr: AgHeader,
    ch: Child,
    t1: Map<u64, Seq<u8>>,
    hdr1: AgHeader,
    ch1: Child,
    t2: Map<u64, Seq<u8>>,
    hdr2: AgHeader,
    ch2: Child,
    level: int,
    own: Option<u64>,
    lo: int,
    mid: int,
    hi: int,
    put: Option<int>,
)
    requires
        lo <= mid <= hi,
        grew(v, t, hdr, ch, t1, hdr1, ch1, level, lo, mid, put),
        frame(v, t, hdr, t1, hdr1, ch, level, own),
        grew(v, t1, hdr1, ch1, t2, hdr2, ch2, level, mid, hi, put),
        frame(v, t1, hdr1, t2, hdr2, ch1, level, None) || frame(
            v,
            t1,
            hdr1,
            t2,
            hdr2,
            ch1,
            level,
            own,
        ),
    ensures
        grew(v, t, hdr, ch, t2, hdr2, ch2, level, lo, hi, put),
        frame(v, t, hdr, t2, hdr2, ch, level, own),
{
    assert forall|x: u64| #[trigger] below(v, t2, ch2, level, x) implies below(v, t, ch, level, x)
        || !spares::kept_safe(v, t, hdr, x) by {
        if spares::kept_safe(v, t, hdr, x) {
            assert(spares::kept_safe(v, t1, hdr1, x));
            assert(below(v, t1, ch1, level, x));
        }
    }
    assert forall|rel: int| 0 <= rel < treenode::cover(level) implies #[trigger] grew_at(
        v,
        t,
        hdr,
        ch,
        t2,
        ch2,
        level,
        lo,
        hi,
        put,
        rel,
    ) by {
        assert(grew_at(v, t, hdr, ch, t1, ch1, level, lo, mid, put, rel));
        assert(grew_at(v, t1, hdr1, ch1, t2, ch2, level, mid, hi, put, rel));
        reveal(grew_at);
        let a1 = tree_laws::address(mapping::child_map(v, t1, ch1, rel, level));
        let a2 = tree_laws::address(mapping::child_map(v, t2, ch2, rel, level));
        if a2 is Some && spares::kept_safe(v, t, hdr, a2->Some_0) {
            assert(spares::kept_safe(v, t1, hdr1, a2->Some_0));
        }
        if a1 is Some {
            lemma_mapped_safe(v, t1, hdr1, ch1, level, rel);
        }
    }
    assert forall|x: u64|
        spares::kept_safe(v, t, hdr, x) && !below(v, t, ch, level, x) && own != Some(
            x,
        ) implies #[trigger] vol::rd(v, t2, x) == vol::rd(v, t, x) by {
        assert(vol::rd(v, t1, x) == vol::rd(v, t, x));
        assert(spares::kept_safe(v, t1, hdr1, x));
        if below(v, t1, ch1, level, x) {
            assert(below(v, t, ch, level, x));
        }
    }
    assert forall|x: u64| spares::kept_safe(v, t, hdr, x) implies #[trigger] spares::kept_safe(
        v,
        t2,
        hdr2,
        x,
    ) by {
        assert(spares::kept_safe(v, t1, hdr1, x));
    }
}

/// A child that does not change has grown over a range that it maps.
proof fn lemma_grew_same(
    v: Vol,
    t: Map<u64, Seq<u8>>,
    hdr: AgHeader,
    ch: Child,
    level: int,
    lo: int,
    hi: int,
)
    requires
        tidy(v, t, hdr, ch, level),
        0 <= lo,
        lo >= hi || (ch.st == CELL_FULL && hi <= ch.blocks),
    ensures
        grew(v, t, hdr, ch, t, hdr, ch, level, lo, hi, None::<int>),
{
    reveal(grew_at);
}

/// Growing child `i` of the node that `ch` names is growing `ch`.
#[verifier::rlimit(40)]
proof fn lemma_grew_up(
    v: Vol,
    t: Map<u64, Seq<u8>>,
    hdr: AgHeader,
    ch: Child,
    t1: Map<u64, Seq<u8>>,
    hdr1: AgHeader,
    level: int,
    i: int,
    lo: int,
    hi: int,
    put: Option<int>,
)
    requires
        level > 0,
        ch.st == CELL_REFINED,
        tidy(v, t, hdr, ch, level),
        0 <= i < 64,
        frame(v, t, hdr, t1, hdr1, kid(v, t, ch, level, i), level - 1, Some(ch.addr)),
        treenode::node_level_of(v, t1, ch.addr, level - 1) matches Ok(b) && b.len() == v.bs,
        forall|j: int|
            0 <= j < 64 && j != i ==> #[trigger] kid(v, t1, ch, level, j) == kid(
                v,
                t,
                ch,
                level,
                j,
            ),
        grew(
            v,
            t,
            hdr,
            kid(v, t, ch, level, i),
            t1,
            hdr1,
            kid(v, t1, ch, level, i),
            level - 1,
            lo - i * treenode::cover(level - 1),
            hi - i * treenode::cover(level - 1),
            from_on(put, i * treenode::cover(level - 1)),
        ),
        i * treenode::cover(level - 1) <= lo,
        hi <= i * treenode::cover(level - 1) + treenode::cover(level - 1),
    ensures
        grew(v, t, hdr, ch, t1, hdr1, ch, level, lo, hi, put),
        frame(v, t, hdr, t1, hdr1, ch, level, None),
{
    let c = treenode::cover(level - 1);
    let k = kid(v, t, ch, level, i);
    let k1 = kid(v, t1, ch, level, i);
    assert forall|j: int| 0 <= j < 64 && j != i implies same_below(
        v,
        t,
        t1,
        #[trigger] kid(v, t, ch, level, j),
        level - 1,
    ) by {
        lemma_sibling(v, t, hdr, ch, t1, hdr1, level, i, j);
    }
    assert(spares::kept_safe(v, t1, hdr1, ch.addr));
    assert forall|j: int| 0 <= j < 64 implies tidy(
        v,
        t1,
        hdr1,
        #[trigger] kid(v, t1, ch, level, j),
        level - 1,
    ) by {
        if j != i {
            assert(tidy(v, t, hdr, kid(v, t, ch, level, j), level - 1));
            lemma_tidy_kept(v, t, hdr, t1, hdr1, kid(v, t, ch, level, j), level - 1);
        }
    }
    // the nodes below each child
    assert forall|j: int, x: u64|
        0 <= j < 64 && #[trigger] below(v, t1, kid(v, t1, ch, level, j), level - 1, x) implies if j
        == i {
        below(v, t, k, level - 1, x) || !spares::kept_safe(v, t, hdr, x)
    } else {
        below(v, t, kid(v, t, ch, level, j), level - 1, x) && spares::kept_safe(v, t, hdr, x)
    } by {
        if j != i {
            let s = kid(v, t, ch, level, j);
            lemma_same_nodes(v, t, t1, s, level - 1, x);
            assert(tidy(v, t, hdr, s, level - 1));
            lemma_below_safe(v, t, hdr, s, level - 1, x);
        }
    }
    assert(lone(v, t1, ch, level)) by {
        reveal(lone);
    }
    assert forall|x: u64| #[trigger] below(v, t1, ch, level, x) implies below(v, t, ch, level, x)
        || !spares::kept_safe(v, t, hdr, x) by {
        if x != ch.addr {
            let j = choose|j: int|
                0 <= j < 64 && below(v, t1, #[trigger] kid(v, t1, ch, level, j), level - 1, x);
            assert(below(v, t1, kid(v, t1, ch, level, j), level - 1, x));
            if spares::kept_safe(v, t, hdr, x) {
                assert(below(v, t, kid(v, t, ch, level, j), level - 1, x));
            }
        }
    }
    assert forall|rel: int| 0 <= rel < treenode::cover(level) implies #[trigger] grew_at(
        v,
        t,
        hdr,
        ch,
        t1,
        ch,
        level,
        lo,
        hi,
        put,
        rel,
    ) by {
        treenode::lemma_cover_monotonic(level - 1, level - 1);
        tree_laws::lemma_part(rel, c);
        tree_laws::lemma_place(rel, c, i);
        let j = rel / c;
        assert(mapping::child_map(v, t, ch, rel, level) == mapping::child_map(
            v,
            t,
            kid(v, t, ch, level, j),
            rel % c,
            level - 1,
        ));
        assert(mapping::child_map(v, t1, ch, rel, level) == mapping::child_map(
            v,
            t1,
            kid(v, t1, ch, level, j),
            rel % c,
            level - 1,
        ));
        if j == i {
            assert(grew_at(
                v,
                t,
                hdr,
                k,
                t1,
                k1,
                level - 1,
                lo - i * c,
                hi - i * c,
                from_on(put, i * c),
                rel % c,
            ));
            let a1 = tree_laws::address(mapping::child_map(v, t1, k1, rel % c, level - 1));
            if a1 is Some && !spares::kept_safe(v, t, hdr, a1->Some_0) && below(
                v,
                t1,
                ch,
                level,
                a1->Some_0,
            ) {
                let j1 = choose|j1: int|
                    0 <= j1 < 64 && below(
                        v,
                        t1,
                        #[trigger] kid(v, t1, ch, level, j1),
                        level - 1,
                        a1->Some_0,
                    );
                assert(below(v, t1, kid(v, t1, ch, level, j1), level - 1, a1->Some_0));
            }
        } else {
            lemma_map_kept(v, t, t1, kid(v, t, ch, level, j), level - 1, rel % c);
        }
        reveal(grew_at);
    }
    assert forall|x: u64|
        spares::kept_safe(v, t, hdr, x) && !below(v, t, ch, level, x) implies #[trigger] vol::rd(
        v,
        t1,
        x,
    ) == vol::rd(v, t, x) by {
        if below(v, t, k, level - 1, x) {
            assert(below(v, t, ch, level, x));
        }
        assert(x != ch.addr);
    }
}

/// Growing a child leaves the nodes below its siblings alone.
proof fn lemma_sibling(
    v: Vol,
    t: Map<u64, Seq<u8>>,
    hdr: AgHeader,
    ch: Child,
    t1: Map<u64, Seq<u8>>,
    hdr1: AgHeader,
    level: int,
    i: int,
    j: int,
)
    requires
        level > 0,
        ch.st == CELL_REFINED,
        tidy(v, t, hdr, ch, level),
        0 <= i < 64,
        0 <= j < 64,
        j != i,
        frame(v, t, hdr, t1, hdr1, kid(v, t, ch, level, i), level - 1, Some(ch.addr)),
    ensures
        same_below(v, t, t1, kid(v, t, ch, level, j), level - 1),
{
    let s = kid(v, t, ch, level, j);
    assert forall|x: u64| below(v, t, s, level - 1, x) implies #[trigger] vol::rd(v, t1, x)
        == vol::rd(v, t, x) by {
        reveal(lone);
        assert(tidy(v, t, hdr, s, level - 1));
        lemma_below_safe(v, t, hdr, s, level - 1, x);
        assert(x != ch.addr);
        assert(!below(v, t, kid(v, t, ch, level, i), level - 1, x));
    }
}

// --- where a child is kept ----------------------------------------------------

/// The block that holds the children of `par`, if it is a node.
pub open spec fn own(par: Par) -> Option<u64> {
    match par {
        Par::Root(_) => None,
        Par::Node(a) => Some(a),
    }
}

/// `par` holds children of level `level`.
pub open spec fn holds(v: Vol, t: Map<u64, Seq<u8>>, hdr: AgHeader, par: Par, level: int) -> bool {
    match par {
        Par::Root(pl) => pl.len() == 128 && pl[0] == level,
        Par::Node(a) => {
            &&& spares::kept_safe(v, t, hdr, a)
            &&& treenode::node_level_of(v, t, a, level) matches Ok(b) && b.len() == v.bs
        },
    }
}

/// How many children `par` holds.
pub open spec fn width(par: Par) -> int {
    match par {
        Par::Root(_) => ROOT_FANOUT as int,
        Par::Node(_) => 64,
    }
}

/// Child `i` of `par` became `c`, and no other child changed.
pub open spec fn child_set(
    v: Vol,
    t: Map<u64, Seq<u8>>,
    par: Par,
    t1: Map<u64, Seq<u8>>,
    par1: Par,
    i: int,
    c: Child,
) -> bool {
    &&& own(par1) == own(par)
    &&& extent::par_get(v, t1, par1, i) == Ok::<Child, FsError>(c)
    &&& forall|j: int|
        0 <= j < width(par) && j != i ==> #[trigger] extent::par_get(v, t1, par1, j)
            == extent::par_get(v, t, par, j)
}

/// A parent whose node holds what it held.
pub proof fn lemma_parent_same(
    v: Vol,
    t: Map<u64, Seq<u8>>,
    hdr: AgHeader,
    t1: Map<u64, Seq<u8>>,
    hdr1: AgHeader,
    par: Par,
    level: int,
)
    requires
        holds(v, t, hdr, par, level),
        stays(v, t, hdr, t1, hdr1),
        own(par) is Some ==> vol::rd(v, t1, own(par)->Some_0) == vol::rd(v, t, own(par)->Some_0),
    ensures
        holds(v, t1, hdr1, par, level),
        forall|j: int| #[trigger]
            extent::par_get(v, t1, par, j) == extent::par_get(v, t, par, j),
{
    if let Par::Node(a) = par {
        assert(spares::kept_safe(v, t1, hdr1, a));
    }
}

/// Setting a child of `par`.
pub proof fn lemma_par_set(
    v: Vol,
    t: Map<u64, Seq<u8>>,
    ag: u32,
    hdr: AgHeader,
    par: Par,
    level: int,
    i: int,
    c: Child,
)
    requires
        v.bs >= 2048,
        tree_laws::settled(v, t, ag, hdr),
        holds(v, t, hdr, par, level),
        0 <= i < width(par),
        c.st < 4,
    ensures
        ({
            let (t1, par1, r1) = extent::par_set(v, t, par, i, c);
            &&& r1 is Ok
            &&& tree_laws::settled(v, t1, ag, hdr)
            &&& stays(v, t, hdr, t1, hdr)
            &&& holds(v, t1, hdr, par1, level)
            &&& child_set(v, t, par, t1, par1, i, c)
            &&& forall|x: u64|
                own(par) != Some(x) ==> #[trigger] vol::rd(v, t1, x) == vol::rd(v, t, x)
        }),
{
    match par {
        Par::Root(pl) => {
            tree_laws::lemma_root_with(pl, i, c);
        },
        Par::Node(a) => {
            let b = treenode::node_of(v, t, a)->Ok_0;
            let b1 = treenode::node_with(b, i, c);
            tree_laws::lemma_node_with(b, i, c);
            tree_laws::lemma_node_to(v, t, ag, hdr, a, b1);
            assert(spares::kept_safe(v, extent::par_set(v, t, par, i, c).0, hdr, a));
        },
    }
}

// --- growing in pieces --------------------------------------------------------

/// An allocation fails and takes the tables with it: it had begun to change them,
/// for want of room for the tables themselves, and does not set them right again.
pub open spec fn spoils(v: Vol, p: Pool, ag: u32, n: int) -> bool {
    let (p1, r1) = allocator::allocated(v, p, ag, n);
    &&& r1 is Err
    &&& fs::header_of(v, p.t, ag) matches Ok(hdr) && !(tree_laws::settled(v, p1.t, ag, hdr)
        && tree_laws::use_kept(v, p.t, hdr, p1.t, hdr))
}

/// No allocation that fails while child `i` of `par` grows spoils the tables.
pub open spec fn steady(
    v: Vol,
    w: Work,
    ag: u32,
    par: Par,
    i: int,
    level: int,
    cs: int,
    from: int,
    to: int,
) -> bool
    decreases level, 1int, 0int,
{
    match extent::par_get(v, w.p.t, par, i) {
        Err(_) => true,
        Ok(ch) => if level <= 0 || (ch.st == CELL_FULL && to - cs <= ch.blocks) {
            true
        } else if ch.st == CELL_FREE && from == cs {
            let (p1, r1) = allocator::allocated(v, w.p, ag, to - cs);
            r1 is Err ==> {
                let (p2, _, r2) = extent::refined(v, p1, ag, par, i, level, ch);
                &&& !spoils(v, w.p, ag, to - cs)
                &&& r2 is Ok ==> steady_from(
                    v,
                    Work { p: p2, ..w },
                    ag,
                    r2->Ok_0,
                    level - 1,
                    cs,
                    from,
                    to,
                )
            }
        } else if ch.st == CELL_FREE || ch.st == CELL_FULL {
            let (p2, _, r2) = extent::refined(v, w.p, ag, par, i, level, ch);
            r2 is Ok ==> steady_from(
                v,
                Work { p: p2, ..w },
                ag,
                r2->Ok_0,
                level - 1,
                cs,
                from,
                to,
            )
        } else {
            steady_from(v, w, ag, ch.addr, level - 1, cs, from, to)
        },
    }
}

/// No allocation that fails while the node at `node` grows spoils the tables.
pub open spec fn steady_from(
    v: Vol,
    w: Work,
    ag: u32,
    node: u64,
    level: int,
    ns: int,
    pos: int,
    to: int,
) -> bool
    decreases level, 2int, to - pos,
{
    let c = treenode::cover(level);
    let i = (pos - ns) / c;
    let cs = ns + i * c;
    let end = if to < cs + c {
        to
    } else {
        cs + c
    };
    pos >= to || end <= pos || {
        let (w1, _, r1) = extent::child_fit(v, w, ag, Par::Node(node), i, level, cs, pos, end);
        &&& steady(v, w, ag, Par::Node(node), i, level, cs, pos, end)
        &&& r1 is Ok ==> steady_from(v, w1, ag, node, level, ns, end, to)
    }
}

/// A piece of a run in use is in use.
proof fn lemma_piece_tidy(
    v: Vol,
    t: Map<u64, Seq<u8>>,
    hdr: AgHeader,
    ch: Child,
    t1: Map<u64, Seq<u8>>,
    hdr1: AgHeader,
    b: Seq<u8>,
    level: int,
    j: int,
)
    requires
        level > 0,
        0 <= j < 64,
        tidy(v, t, hdr, ch, level),
        ch.st == CELL_FREE || ch.st == CELL_FULL,
        stays(v, t, hdr, t1, hdr1),
        tree_laws::replaces(b, ch, treenode::cover(level - 1)),
    ensures
        treenode::node_at(b, j).st != CELL_REFINED,
        tidy(v, t1, hdr1, treenode::node_at(b, j), level - 1),
{
    let c = treenode::cover(level - 1);
    let k = treenode::node_at(b, j);
    treenode::lemma_cover_monotonic(level - 1, level - 1);
    if ch.st == CELL_FULL && j * c < ch.blocks {
        assert(k == tree_laws::piece(c, ch.blocks as int, ch.addr, j));
        assert(j * c >= 0) by (nonlinear_arith)
            requires
                j >= 0,
                c >= 1,
        ;
        assert(k.addr == ch.addr + j * c);
        assert(k.addr + k.blocks <= ch.addr + ch.blocks);
        assert forall|x: u64| k.addr <= x < k.addr + k.blocks implies #[trigger] spares::kept_safe(
            v,
            t1,
            hdr1,
            x,
        ) by {
            assert(spares::kept_safe(v, t, hdr, x));
        }
    }
}

/// A child that is replaced by a node maps what it mapped and is in order.
#[verifier::rlimit(40)]
proof fn lemma_refined_tidy(
    v: Vol,
    t: Map<u64, Seq<u8>>,
    hdr: AgHeader,
    ch: Child,
    t1: Map<u64, Seq<u8>>,
    hdr1: AgHeader,
    node: u64,
    b: Seq<u8>,
    level: int,
    lo: int,
    put: Option<int>,
)
    requires
        level > 0,
        tidy(v, t, hdr, ch, level),
        ch.st == CELL_FREE || ch.st == CELL_FULL,
        stays(v, t, hdr, t1, hdr1),
        spares::kept_safe(v, t1, hdr1, node),
        !spares::kept_safe(v, t, hdr, node),
        treenode::node_level_of(v, t1, node, level - 1) == Ok::<Seq<u8>, FsError>(b),
        b.len() == v.bs,
        tree_laws::replaces(b, ch, treenode::cover(level - 1)),
    ensures
        grew(
            v,
            t,
            hdr,
            ch,
            t1,
            hdr1,
            Child { st: CELL_REFINED, blocks: 0, addr: node },
            level,
            lo,
            lo,
            put,
        ),
{
    let new = Child { st: CELL_REFINED, blocks: 0, addr: node };
    assert forall|j: int| 0 <= j < 64 implies (#[trigger] kid(v, t1, new, level, j)).st
        != CELL_REFINED && tidy(v, t1, hdr1, kid(v, t1, new, level, j), level - 1) by {
        lemma_piece_tidy(v, t, hdr, ch, t1, hdr1, b, level, j);
    }
    assert(lone(v, t1, new, level)) by {
        reveal(lone);
    }
    assert(tidy(v, t1, hdr1, new, level));
    assert forall|x: u64| #[trigger] below(v, t1, new, level, x) implies !spares::kept_safe(
        v,
        t,
        hdr,
        x,
    ) by {
        if x != node {
            let j = choose|j: int|
                0 <= j < 64 && below(v, t1, #[trigger] kid(v, t1, new, level, j), level - 1, x);
            assert(kid(v, t1, new, level, j).st != CELL_REFINED);
        }
    }
    assert forall|rel: int| 0 <= rel < treenode::cover(level) implies #[trigger] grew_at(
        v,
        t,
        hdr,
        ch,
        t1,
        new,
        level,
        lo,
        lo,
        put,
        rel,
    ) by {
        tree_laws::lemma_replaced_map(v, t, t1, ch, node, b, level, rel);
        reveal(grew_at);
    }
}

/// A hole that gets a run.
#[verifier::rlimit(40)]
proof fn lemma_filled(
    v: Vol,
    w: Work,
    ag: u32,
    hdr: AgHeader,
    par: Par,
    i: int,
    level: int,
    ch: Child,
    n: int,
) -> (hdr1: AgHeader)
    requires
        v.bs >= 2048,
        tree_laws::settled(v, w.p.t, ag, hdr),
        holds(v, w.p.t, hdr, par, level),
        0 <= i < width(par),
        ch.st == CELL_FREE,
        1 <= n,
        allocator::allocated(v, w.p, ag, n).1 is Ok,
    ensures
        ({
            let (p1, r1) = allocator::allocated(v, w.p, ag, n);
            let new = Child { st: CELL_FULL, blocks: n as u32, addr: r1->Ok_0 };
            let (t1, par1, r2) = extent::par_set(v, p1.t, par, i, new);
            &&& r2 is Ok
            &&& tree_laws::settled(v, t1, ag, hdr1)
            &&& holds(v, t1, hdr1, par1, level)
            &&& child_set(v, w.p.t, par, t1, par1, i, new)
            &&& frame(v, w.p.t, hdr, t1, hdr1, ch, level, own(par))
            &&& grew(v, w.p.t, hdr, ch, t1, hdr1, new, level, 0, n, None::<int>)
        }),
{
    let t = w.p.t;
    let (p1, r1) = allocator::allocated(v, w.p, ag, n);
    let blk = r1->Ok_0;
    let new = Child { st: CELL_FULL, blocks: n as u32, addr: blk };
    let hdr1 = tree_laws::lemma_run_new(v, w.p, ag, hdr, n);
    tree_laws::lemma_run_short(v, w.p, ag, hdr, n);
    lemma_parent_same(v, t, hdr, p1.t, hdr1, par, level);
    lemma_par_set(v, p1.t, ag, hdr1, par, level, i, new);
    let (t1, par1, _) = extent::par_set(v, p1.t, par, i, new);
    assert forall|x: u64| spares::kept_safe(v, t, hdr, x) implies #[trigger] spares::kept_safe(
        v,
        t1,
        hdr1,
        x,
    ) by {
        assert(spares::kept_safe(v, p1.t, hdr1, x));
    }
    assert forall|x: u64|
        spares::kept_safe(v, t, hdr, x) && own(par) != Some(x) implies #[trigger] vol::rd(v, t1, x)
        == vol::rd(v, t, x) by {
        assert(vol::rd(v, p1.t, x) == vol::rd(v, t, x));
    }
    assert(tidy(v, t1, hdr1, new, level)) by {
        assert forall|x: u64| blk <= x < blk + n implies #[trigger] spares::kept_safe(
            v,
            t1,
            hdr1,
            x,
        ) by {
            assert(spares::kept_safe(v, p1.t, hdr1, x));
        }
    }
    assert forall|rel: int| 0 <= rel < treenode::cover(level) implies #[trigger] grew_at(
        v,
        t,
        hdr,
        ch,
        t1,
        new,
        level,
        0,
        n,
        None::<int>,
        rel,
    ) by {
        reveal(grew_at);
        if rel < n {
            assert(spares::kept_safe(v, p1.t, hdr1, (blk + rel) as u64));
        }
    }
    hdr1
}

/// A child that is replaced by a node.
#[verifier::rlimit(40)]
pub proof fn lemma_refined(
    v: Vol,
    w: Work,
    ag: u32,
    hdr: AgHeader,
    par: Par,
    i: int,
    level: int,
    ch: Child,
    lo: int,
    put: Option<int>,
) -> (hdr1: AgHeader)
    requires
        v.bs >= 2048,
        tree_laws::settled(v, w.p.t, ag, hdr),
        holds(v, w.p.t, hdr, par, level),
        0 <= i < width(par),
        0 < level <= MAX_LEVEL,
        ch.st == CELL_FREE || ch.st == CELL_FULL,
        tidy(v, w.p.t, hdr, ch, level),
        extent::refined(v, w.p, ag, par, i, level, ch).2 is Ok,
    ensures
        ({
            let (p1, par1, r1) = extent::refined(v, w.p, ag, par, i, level, ch);
            let new = Child { st: CELL_REFINED, blocks: 0, addr: r1->Ok_0 };
            &&& tree_laws::settled(v, p1.t, ag, hdr1)
            &&& holds(v, p1.t, hdr1, par1, level)
            &&& child_set(v, w.p.t, par, p1.t, par1, i, new)
            &&& frame(v, w.p.t, hdr, p1.t, hdr1, ch, level, own(par))
            &&& grew(v, w.p.t, hdr, ch, p1.t, hdr1, new, level, lo, lo, put)
            &&& !spares::kept_safe(v, w.p.t, hdr, r1->Ok_0)
        }),
{
    reveal(extent::refined);
    let t = w.p.t;
    let (p1, r1) = extent::node_new(v, w.p, ag, (level - 1) as u8);
    let node = r1->Ok_0;
    let new = Child { st: CELL_REFINED, blocks: 0, addr: node };
    let (hdr1, b) = tree_laws::lemma_replacement(v, w.p, ag, hdr, level, ch);
    let t2 = if ch.st == CELL_FULL {
        extent::spread_over(v, p1.t, node, level - 1, ch.blocks as int, ch.addr).0
    } else {
        p1.t
    };
    lemma_parent_same(v, t, hdr, t2, hdr1, par, level);
    lemma_par_set(v, t2, ag, hdr1, par, level, i, new);
    let (t3, par3, _) = extent::par_set(v, t2, par, i, new);
    assert forall|x: u64| spares::kept_safe(v, t, hdr, x) implies #[trigger] spares::kept_safe(
        v,
        t3,
        hdr1,
        x,
    ) by {
        assert(spares::kept_safe(v, t2, hdr1, x));
    }
    assert forall|x: u64|
        spares::kept_safe(v, t, hdr, x) && own(par) != Some(x) implies #[trigger] vol::rd(v, t3, x)
        == vol::rd(v, t, x) by {
        assert(vol::rd(v, t2, x) == vol::rd(v, t, x));
    }
    assert(own(par) != Some(node));
    assert(vol::rd(v, t3, node) == vol::rd(v, t2, node));
    assert(spares::kept_safe(v, t3, hdr1, node));
    lemma_refined_tidy(v, t, hdr, ch, t3, hdr1, node, b, level, lo, put);
    hdr1
}

/// A hole is one whatever happens to other blocks.
pub proof fn lemma_grew_hole(
    v: Vol,
    t: Map<u64, Seq<u8>>,
    hdr: AgHeader,
    t1: Map<u64, Seq<u8>>,
    hdr1: AgHeader,
    ch: Child,
    level: int,
    own: Option<u64>,
    lo: int,
)
    requires
        ch.st == CELL_FREE,
        tree_laws::use_kept(v, t, hdr, t1, hdr1),
    ensures
        grew(v, t, hdr, ch, t1, hdr1, ch, level, lo, lo, None::<int>),
        frame(v, t, hdr, t1, hdr1, ch, level, own),
{
    reveal(grew_at);
}

/// A child that is replaced by a node, which grows.
pub proof fn lemma_grew_refined(
    v: Vol,
    t: Map<u64, Seq<u8>>,
    hdr: AgHeader,
    ch: Child,
    t2: Map<u64, Seq<u8>>,
    hdr2: AgHeader,
    new: Child,
    t3: Map<u64, Seq<u8>>,
    hdr3: AgHeader,
    level: int,
    par: Par,
    par2: Par,
    lo: int,
    hi: int,
    i: int,
    put: Option<int>,
)
    requires
        lo <= hi,
        holds(v, t, hdr, par, level),
        0 <= i < width(par),
        ch.st == CELL_FREE || ch.st == CELL_FULL,
        holds(v, t2, hdr2, par2, level),
        child_set(v, t, par, t2, par2, i, new),
        frame(v, t, hdr, t2, hdr2, ch, level, own(par)),
        grew(v, t, hdr, ch, t2, hdr2, new, level, lo, lo, put),
        !spares::kept_safe(v, t, hdr, new.addr),
        frame(v, t2, hdr2, t3, hdr3, new, level, None),
        grew(v, t2, hdr2, new, t3, hdr3, new, level, lo, hi, put),
    ensures
        holds(v, t3, hdr3, par2, level),
        child_set(v, t, par, t3, par2, i, new),
        frame(v, t, hdr, t3, hdr3, ch, level, own(par)),
        grew(v, t, hdr, ch, t3, hdr3, new, level, lo, hi, put),
{
    lemma_grew_twice(
        v,
        t,
        hdr,
        ch,
        t2,
        hdr2,
        new,
        t3,
        hdr3,
        new,
        level,
        own(par),
        lo,
        lo,
        hi,
        put,
    );
    if let Some(a) = own(par) {
        assert(spares::kept_safe(v, t, hdr, a));
        assert(spares::kept_safe(v, t2, hdr2, a));
        assert(!below(v, t2, new, level, a));
    }
    lemma_parent_same(v, t2, hdr2, t3, hdr3, par2, level);
}

/// A child that grows.
#[verifier::rlimit(60)]
pub proof fn lemma_child_fit(
    v: Vol,
    w: Work,
    ag: u32,
    hdr: AgHeader,
    par: Par,
    i: int,
    level: int,
    ch: Child,
    cs: int,
    from: int,
    to: int,
) -> (r: (AgHeader, Child))
    requires
        v.bs >= 2048,
        tree_laws::settled(v, w.p.t, ag, hdr),
        holds(v, w.p.t, hdr, par, level),
        0 <= i < width(par),
        0 <= level <= MAX_LEVEL,
        extent::par_get(v, w.p.t, par, i) == Ok::<Child, FsError>(ch),
        tidy(v, w.p.t, hdr, ch, level),
        own(par) is Some ==> !below(v, w.p.t, ch, level, own(par)->Some_0),
        cs <= from < to <= cs + treenode::cover(level),
        steady(v, w, ag, par, i, level, cs, from, to),
        extent::child_fit(v, w, ag, par, i, level, cs, from, to).2 is Ok,
    ensures
        ({
            let (w1, par1, _) = extent::child_fit(v, w, ag, par, i, level, cs, from, to);
            &&& tree_laws::settled(v, w1.p.t, ag, r.0)
            &&& holds(v, w1.p.t, r.0, par1, level)
            &&& child_set(v, w.p.t, par, w1.p.t, par1, i, r.1)
            &&& frame(v, w.p.t, hdr, w1.p.t, r.0, ch, level, own(par))
            &&& grew(v, w.p.t, hdr, ch, w1.p.t, r.0, r.1, level, from - cs, to - cs, None::<int>)
        }),
    decreases level, 1int, 0int,
{
    let t = w.p.t;
    if ch.st == CELL_FULL && to - cs <= ch.blocks {
        lemma_grew_same(v, t, hdr, ch, level, from - cs, to - cs);
        (hdr, ch)
    } else if ch.st == CELL_FREE && from == cs {
        let (p1, r1) = allocator::allocated(v, w.p, ag, to - cs);
        if r1 is Ok {
            let hdr1 = lemma_filled(v, w, ag, hdr, par, i, level, ch, to - cs);
            (hdr1, Child { st: CELL_FULL, blocks: (to - cs) as u32, addr: r1->Ok_0 })
        } else {
            let w1 = Work { p: p1, ..w };
            let lo = from - cs;
            lemma_parent_same(v, t, hdr, p1.t, hdr, par, level);
            lemma_grew_hole(v, t, hdr, p1.t, hdr, ch, level, own(par), lo);
            let (p2, par2, r2) = extent::refined(v, p1, ag, par, i, level, ch);
            let new = Child { st: CELL_REFINED, blocks: 0, addr: r2->Ok_0 };
            let w2 = Work { p: p2, ..w };
            let hdr2 = lemma_refined(v, w1, ag, hdr, par, i, level, ch, lo, None::<int>);
            let hdr3 = lemma_node_fit(v, w2, ag, hdr2, new, level, cs, from, to);
            let w3 = extent::node_fit_from(v, w2, ag, new.addr, level - 1, cs, from, to).0;
            lemma_grew_refined(
                v,
                p1.t,
                hdr,
                ch,
                p2.t,
                hdr2,
                new,
                w3.p.t,
                hdr3,
                level,
                par,
                par2,
                lo,
                to - cs,
                i,
                None::<int>,
            );
            lemma_grew_twice(
                v,
                t,
                hdr,
                ch,
                p1.t,
                hdr,
                ch,
                w3.p.t,
                hdr3,
                new,
                level,
                own(par),
                lo,
                lo,
                to - cs,
                None::<int>,
            );
            (hdr3, new)
        }
    } else if ch.st == CELL_FREE || ch.st == CELL_FULL {
        let lo = from - cs;
        let (p2, par2, r2) = extent::refined(v, w.p, ag, par, i, level, ch);
        let new = Child { st: CELL_REFINED, blocks: 0, addr: r2->Ok_0 };
        let w2 = Work { p: p2, ..w };
        let hdr2 = lemma_refined(v, w, ag, hdr, par, i, level, ch, lo, None::<int>);
        let hdr3 = lemma_node_fit(v, w2, ag, hdr2, new, level, cs, from, to);
        let w3 = extent::node_fit_from(v, w2, ag, new.addr, level - 1, cs, from, to).0;
        lemma_grew_refined(
            v,
            t,
            hdr,
            ch,
            p2.t,
            hdr2,
            new,
            w3.p.t,
            hdr3,
            level,
            par,
            par2,
            lo,
            to - cs,
            i,
            None::<int>,
        );
        (hdr3, new)
    } else {
        let hdr3 = lemma_node_fit(v, w, ag, hdr, ch, level, cs, from, to);
        let w3 = extent::node_fit_from(v, w, ag, ch.addr, level - 1, cs, from, to).0;
        lemma_parent_same(v, t, hdr, w3.p.t, hdr3, par, level);
        (hdr3, ch)
    }
}

/// One step over the children of a node.
pub proof fn lemma_step(ns: int, pos: int, to: int, c: int)
    requires
        c >= 1,
        ns <= pos < to <= ns + 64 * c,
    ensures
        ({
            let i = (pos - ns) / c;
            let cs = ns + i * c;
            let end = if to < cs + c {
                to
            } else {
                cs + c
            };
            &&& 0 <= i < 64
            &&& cs <= pos < end <= to
            &&& end <= cs + c
        }),
{
    tree_laws::lemma_part(pos - ns, c);
    tree_laws::lemma_place(pos - ns, c, (pos - ns) / c);
}

/// Growing child `i` of the node that `ch` names, as `child_fit` does it.
pub proof fn lemma_node_part(
    v: Vol,
    t: Map<u64, Seq<u8>>,
    hdr: AgHeader,
    ch: Child,
    t1: Map<u64, Seq<u8>>,
    hdr1: AgHeader,
    par1: Par,
    k1: Child,
    level: int,
    i: int,
    lo: int,
    hi: int,
    put: Option<int>,
)
    requires
        level > 0,
        ch.st == CELL_REFINED,
        tidy(v, t, hdr, ch, level),
        0 <= i < 64,
        holds(v, t1, hdr1, par1, level - 1),
        child_set(v, t, Par::Node(ch.addr), t1, par1, i, k1),
        frame(v, t, hdr, t1, hdr1, kid(v, t, ch, level, i), level - 1, Some(ch.addr)),
        grew(
            v,
            t,
            hdr,
            kid(v, t, ch, level, i),
            t1,
            hdr1,
            k1,
            level - 1,
            lo - i * treenode::cover(level - 1),
            hi - i * treenode::cover(level - 1),
            from_on(put, i * treenode::cover(level - 1)),
        ),
        i * treenode::cover(level - 1) <= lo,
        hi <= i * treenode::cover(level - 1) + treenode::cover(level - 1),
    ensures
        grew(v, t, hdr, ch, t1, hdr1, ch, level, lo, hi, put),
        frame(v, t, hdr, t1, hdr1, ch, level, None),
{
    assert(par1 == Par::Node(ch.addr));
    assert(kid(v, t1, ch, level, i) == k1);
    assert forall|j: int| 0 <= j < 64 && j != i implies #[trigger] kid(v, t1, ch, level, j) == kid(
        v,
        t,
        ch,
        level,
        j,
    ) by {
        assert(extent::par_get(v, t1, par1, j) == extent::par_get(v, t, Par::Node(ch.addr), j));
    }
    lemma_grew_up(v, t, hdr, ch, t1, hdr1, level, i, lo, hi, put);
}

/// A child of a node in order.
pub proof fn lemma_kid(v: Vol, t: Map<u64, Seq<u8>>, hdr: AgHeader, ch: Child, level: int, i: int)
    requires
        level > 0,
        ch.st == CELL_REFINED,
        tidy(v, t, hdr, ch, level),
        0 <= i < 64,
    ensures
        holds(v, t, hdr, Par::Node(ch.addr), level - 1),
        extent::par_get(v, t, Par::Node(ch.addr), i) == Ok::<Child, FsError>(
            kid(v, t, ch, level, i),
        ),
        tidy(v, t, hdr, kid(v, t, ch, level, i), level - 1),
        !below(v, t, kid(v, t, ch, level, i), level - 1, ch.addr),
{
    reveal(lone);
}

/// A node that grows.
#[verifier::rlimit(60)]
pub proof fn lemma_node_fit(
    v: Vol,
    w: Work,
    ag: u32,
    hdr: AgHeader,
    ch: Child,
    level: int,
    ns: int,
    pos: int,
    to: int,
) -> (hdr1: AgHeader)
    requires
        v.bs >= 2048,
        tree_laws::settled(v, w.p.t, ag, hdr),
        0 < level <= MAX_LEVEL,
        ch.st == CELL_REFINED,
        tidy(v, w.p.t, hdr, ch, level),
        ns <= pos <= to <= ns + treenode::cover(level),
        steady_from(v, w, ag, ch.addr, level - 1, ns, pos, to),
        extent::node_fit_from(v, w, ag, ch.addr, level - 1, ns, pos, to).1 is Ok,
    ensures
        ({
            let w1 = extent::node_fit_from(v, w, ag, ch.addr, level - 1, ns, pos, to).0;
            &&& tree_laws::settled(v, w1.p.t, ag, hdr1)
            &&& frame(v, w.p.t, hdr, w1.p.t, hdr1, ch, level, None)
            &&& grew(v, w.p.t, hdr, ch, w1.p.t, hdr1, ch, level, pos - ns, to - ns, None::<int>)
        }),
    decreases level - 1, 2int, to - pos,
{
    let t = w.p.t;
    let c = treenode::cover(level - 1);
    treenode::lemma_cover_monotonic(level - 1, level - 1);
    if pos >= to {
        lemma_grew_same(v, t, hdr, ch, level, pos - ns, to - ns);
        hdr
    } else {
        lemma_step(ns, pos, to, c);
        let i = (pos - ns) / c;
        let cs = ns + i * c;
        let end = if to < cs + c {
            to
        } else {
            cs + c
        };
        let par = Par::Node(ch.addr);
        let k = kid(v, t, ch, level, i);
        lemma_kid(v, t, hdr, ch, level, i);
        let (w1, par1, _) = extent::child_fit(v, w, ag, par, i, level - 1, cs, pos, end);
        let (hdr1, k1) = lemma_child_fit(v, w, ag, hdr, par, i, level - 1, k, cs, pos, end);
        let t1 = w1.p.t;
        assert(pos - ns - i * c == pos - cs && end - ns - i * c == end - cs);
        lemma_node_part(v, t, hdr, ch, t1, hdr1, par1, k1, level, i, pos - ns, end - ns, None::<int>);
        let hdr2 = lemma_node_fit(v, w1, ag, hdr1, ch, level, ns, end, to);
        let w2 = extent::node_fit_from(v, w1, ag, ch.addr, level - 1, ns, end, to).0;
        lemma_grew_twice(
            v,
            t,
            hdr,
            ch,
            t1,
            hdr1,
            ch,
            w2.p.t,
            hdr2,
            ch,
            level,
            None,
            pos - ns,
            end - ns,
            to - ns,
            None::<int>,
        );
        hdr2
    }
}

// --- the root -----------------------------------------------------------------

/// Block `x` is a node of the tree with root `pl`.
pub open spec fn in_tree(v: Vol, t: Map<u64, Seq<u8>>, pl: Seq<u8>, x: u64) -> bool {
    exists|i: int|
        0 <= i < ROOT_FANOUT && below(v, t, #[trigger] treenode::root_at(pl, i), pl[0] as int, x)
}

/// No node is below two children of the root.
#[verifier::opaque]
pub open spec fn apart(v: Vol, t: Map<u64, Seq<u8>>, pl: Seq<u8>) -> bool {
    forall|i: int, j: int, x: u64|
        0 <= i < ROOT_FANOUT && 0 <= j < ROOT_FANOUT && #[trigger] below(
            v,
            t,
            treenode::root_at(pl, i),
            pl[0] as int,
            x,
        ) && #[trigger] below(v, t, treenode::root_at(pl, j), pl[0] as int, x) ==> i == j
}

/// A tree in order: its nodes read, are in use and are met once, and what it maps
/// is in use.
pub open spec fn tidy_tree(v: Vol, t: Map<u64, Seq<u8>>, hdr: AgHeader, pl: Seq<u8>) -> bool {
    &&& pl.len() == 128
    &&& pl[0] <= MAX_LEVEL
    &&& forall|i: int|
        0 <= i < ROOT_FANOUT ==> tidy(
            v,
            t,
            hdr,
            #[trigger] treenode::root_at(pl, i),
            pl[0] as int,
        )
    &&& apart(v, t, pl)
}

/// What becomes of file block `f` of a tree that grows over `lo` to `hi`. Where a run
/// is put there, counted as from file block 0 on, the range is mapped to that run and
/// nothing else changes. Else what was mapped before is mapped to the same block; in
/// the range, and there alone, it is mapped; and a block that is new to the file was
/// not in use and is no node of the tree.
#[verifier::opaque]
pub open spec fn block_grew(
    v: Vol,
    t: Map<u64, Seq<u8>>,
    hdr: AgHeader,
    pl: Seq<u8>,
    t1: Map<u64, Seq<u8>>,
    pl1: Seq<u8>,
    lo: int,
    hi: int,
    put: Option<int>,
    f: int,
) -> bool {
    let a = tree_laws::address(mapping::tree_map(v, t, pl, f));
    let a1 = tree_laws::address(mapping::tree_map(v, t1, pl1, f));
    if put is Some {
        a1 == if lo <= f < hi {
            Some((put->Some_0 + f) as u64)
        } else {
            a
        }
    } else {
        &&& a is Some ==> a1 == a
        &&& lo <= f < hi ==> a1 is Some
        &&& a is None && a1 is Some ==> lo <= f < hi && !spares::kept_safe(
            v,
            t,
            hdr,
            a1->Some_0,
        ) && !in_tree(v, t1, pl1, a1->Some_0)
    }
}

/// What growing over `lo` to `hi` does to a tree, and to the rest of the volume:
/// blocks in use stay in use, and hold what they held but for the tree's nodes.
pub open spec fn tree_grew(
    v: Vol,
    t: Map<u64, Seq<u8>>,
    hdr: AgHeader,
    pl: Seq<u8>,
    t1: Map<u64, Seq<u8>>,
    hdr1: AgHeader,
    pl1: Seq<u8>,
    lo: int,
    hi: int,
    put: Option<int>,
) -> bool {
    &&& tidy_tree(v, t1, hdr1, pl1)
    &&& stays(v, t, hdr, t1, hdr1)
    &&& forall|x: u64|
        spares::kept_safe(v, t, hdr, x) && !in_tree(v, t, pl, x) ==> #[trigger] vol::rd(v, t1, x)
            == vol::rd(v, t, x)
    &&& forall|x: u64| #[trigger]
        in_tree(v, t1, pl1, x) ==> in_tree(v, t, pl, x) || !spares::kept_safe(v, t, hdr, x)
    &&& forall|f: int|
        0 <= f ==> #[trigger] block_grew(v, t, hdr, pl, t1, pl1, lo, hi, put, f)
}

/// What a tree in order maps is in use.
pub proof fn lemma_tree_mapped_safe(v: Vol, t: Map<u64, Seq<u8>>, hdr: AgHeader, pl: Seq<u8>, f: int)
    requires
        tidy_tree(v, t, hdr, pl),
        0 <= f,
    ensures
        tree_laws::address(mapping::tree_map(v, t, pl, f)) matches Some(a) ==> spares::kept_safe(
            v,
            t,
            hdr,
            a,
        ),
{
    let level = pl[0] as int;
    let c = treenode::cover(level);
    treenode::lemma_cover_monotonic(level, level);
    tree_laws::lemma_place(f, c, f / c);
    if f / c < ROOT_FANOUT {
        let k = treenode::root_at(pl, f / c);
        assert(tidy(v, t, hdr, k, level));
        lemma_mapped_safe(v, t, hdr, k, level, f % c);
    }
}

/// Each file block of the tree with root `pl` stands in a block of its own, and none
/// of them is a node.
#[verifier::opaque]
pub open spec fn plain(v: Vol, t: Map<u64, Seq<u8>>, pl: Seq<u8>) -> bool {
    &&& forall|f: int, g: int|
        #![trigger mapping::tree_map(v, t, pl, f), mapping::tree_map(v, t, pl, g)]
        0 <= f && 0 <= g && f != g && tree_laws::address(mapping::tree_map(v, t, pl, f)) is Some
            ==> tree_laws::address(mapping::tree_map(v, t, pl, f)) != tree_laws::address(
            mapping::tree_map(v, t, pl, g),
        )
    &&& forall|f: int|
        #![trigger mapping::tree_map(v, t, pl, f)]
        0 <= f && tree_laws::address(mapping::tree_map(v, t, pl, f)) is Some ==> !in_tree(
            v,
            t,
            pl,
            tree_laws::address(mapping::tree_map(v, t, pl, f))->Some_0,
        )
}

/// Where block `f` of a tree stands.
pub open spec fn spot(v: Vol, t: Map<u64, Seq<u8>>, pl: Seq<u8>, f: int) -> Option<u64> {
    tree_laws::address(mapping::tree_map(v, t, pl, f))
}

/// Two blocks of such a tree, and a block and the nodes.
pub proof fn lemma_plain(v: Vol, t: Map<u64, Seq<u8>>, pl: Seq<u8>, f: int, g: int)
    requires
        plain(v, t, pl),
        0 <= f,
        0 <= g,
        spot(v, t, pl, f) is Some,
    ensures
        f != g ==> spot(v, t, pl, f) != spot(v, t, pl, g),
        !in_tree(v, t, pl, spot(v, t, pl, f)->Some_0),
{
    reveal(plain);
}

/// What becomes of block `f` where a tree grows by block `lo`.
proof fn lemma_grew_one(
    v: Vol,
    t: Map<u64, Seq<u8>>,
    hdr: AgHeader,
    pl: Seq<u8>,
    t1: Map<u64, Seq<u8>>,
    hdr1: AgHeader,
    pl1: Seq<u8>,
    lo: int,
    f: int,
)
    requires
        plain(v, t, pl),
        tidy_tree(v, t, hdr, pl),
        tree_grew(v, t, hdr, pl, t1, hdr1, pl1, lo, lo + 1, None::<int>),
        0 <= f,
        spot(v, t1, pl1, f) is Some,
    ensures
        ({
            let x = spot(v, t1, pl1, f)->Some_0;
            ||| spot(v, t, pl, f) == Some(x) && spares::kept_safe(v, t, hdr, x)
            ||| f == lo && !spares::kept_safe(v, t, hdr, x)
        }),
        !in_tree(v, t1, pl1, spot(v, t1, pl1, f)->Some_0),
{
    let x = spot(v, t1, pl1, f)->Some_0;
    assert(block_grew(v, t, hdr, pl, t1, pl1, lo, lo + 1, None::<int>, f));
    reveal(block_grew);
    lemma_tree_mapped_safe(v, t, hdr, pl, f);
    if spot(v, t, pl, f) is Some {
        lemma_plain(v, t, pl, f, f);
        assert(in_tree(v, t1, pl1, x) ==> in_tree(v, t, pl, x) || !spares::kept_safe(v, t, hdr, x));
    }
}

/// A tree that grows by one block keeps its blocks and nodes apart.
pub proof fn lemma_plain_grew(
    v: Vol,
    t: Map<u64, Seq<u8>>,
    hdr: AgHeader,
    pl: Seq<u8>,
    t1: Map<u64, Seq<u8>>,
    hdr1: AgHeader,
    pl1: Seq<u8>,
    lo: int,
)
    requires
        plain(v, t, pl),
        tidy_tree(v, t, hdr, pl),
        tree_grew(v, t, hdr, pl, t1, hdr1, pl1, lo, lo + 1, None::<int>),
    ensures
        plain(v, t1, pl1),
{
    assert forall|f: int, g: int|
        #![trigger spot(v, t1, pl1, f), spot(v, t1, pl1, g)]
        0 <= f && 0 <= g && f != g && spot(v, t1, pl1, f) is Some implies spot(v, t1, pl1, f)
        != spot(v, t1, pl1, g) by {
        lemma_grew_one(v, t, hdr, pl, t1, hdr1, pl1, lo, f);
        if spot(v, t1, pl1, g) == spot(v, t1, pl1, f) {
            lemma_grew_one(v, t, hdr, pl, t1, hdr1, pl1, lo, g);
            if spot(v, t, pl, f) is Some {
                lemma_plain(v, t, pl, f, g);
            }
        }
    }
    assert forall|f: int| 0 <= f && (#[trigger] spot(v, t1, pl1, f)) is Some implies !in_tree(
        v,
        t1,
        pl1,
        spot(v, t1, pl1, f)->Some_0,
    ) by {
        lemma_grew_one(v, t, hdr, pl, t1, hdr1, pl1, lo, f);
    }
    lemma_is_plain(v, t1, pl1);
}

/// Blocks and nodes that are apart.
proof fn lemma_is_plain(v: Vol, t: Map<u64, Seq<u8>>, pl: Seq<u8>)
    requires
        forall|f: int, g: int|
            #![trigger spot(v, t, pl, f), spot(v, t, pl, g)]
            0 <= f && 0 <= g && f != g && spot(v, t, pl, f) is Some ==> spot(v, t, pl, f) != spot(
                v,
                t,
                pl,
                g,
            ),
        forall|f: int|
            0 <= f && (#[trigger] spot(v, t, pl, f)) is Some ==> !in_tree(
                v,
                t,
                pl,
                spot(v, t, pl, f)->Some_0,
            ),
    ensures
        plain(v, t, pl),
{
    reveal(plain);
    assert forall|f: int, g: int|
        #![trigger mapping::tree_map(v, t, pl, f), mapping::tree_map(v, t, pl, g)]
        0 <= f && 0 <= g && f != g && tree_laws::address(mapping::tree_map(v, t, pl, f)) is Some
        implies tree_laws::address(mapping::tree_map(v, t, pl, f)) != tree_laws::address(
        mapping::tree_map(v, t, pl, g),
    ) by {
        assert(spot(v, t, pl, f) != spot(v, t, pl, g));
    }
    assert forall|f: int|
        #![trigger mapping::tree_map(v, t, pl, f)]
        0 <= f && tree_laws::address(mapping::tree_map(v, t, pl, f)) is Some implies !in_tree(
        v,
        t,
        pl,
        tree_laws::address(mapping::tree_map(v, t, pl, f))->Some_0,
    ) by {
        assert(spot(v, t, pl, f) is Some);
    }
}

/// A tree whose nodes hold what they held maps what it mapped, through the same
/// nodes.
pub proof fn lemma_same_tree(v: Vol, t: Map<u64, Seq<u8>>, t1: Map<u64, Seq<u8>>, pl: Seq<u8>)
    requires
        pl[0] <= MAX_LEVEL,
        forall|x: u64| #[trigger]
            in_tree(v, t, pl, x) ==> vol::rd(v, t1, x) == vol::rd(v, t, x),
    ensures
        forall|i: int|
            0 <= i < ROOT_FANOUT ==> same_below(
                v,
                t,
                t1,
                #[trigger] treenode::root_at(pl, i),
                pl[0] as int,
            ),
        forall|x: u64| #[trigger] in_tree(v, t1, pl, x) == in_tree(v, t, pl, x),
        forall|f: int|
            0 <= f ==> #[trigger] mapping::tree_map(v, t1, pl, f) == mapping::tree_map(
                v,
                t,
                pl,
                f,
            ),
{
    let level = pl[0] as int;
    assert forall|i: int| 0 <= i < ROOT_FANOUT implies same_below(
        v,
        t,
        t1,
        #[trigger] treenode::root_at(pl, i),
        level,
    ) by {
        let ch = treenode::root_at(pl, i);
        assert forall|x: u64| below(v, t, ch, level, x) implies #[trigger] vol::rd(v, t1, x)
            == vol::rd(v, t, x) by {
            assert(in_tree(v, t, pl, x));
        }
    }
    assert forall|x: u64| #[trigger] in_tree(v, t1, pl, x) == in_tree(v, t, pl, x) by {
        assert forall|i: int| 0 <= i < ROOT_FANOUT implies below(
            v,
            t1,
            #[trigger] treenode::root_at(pl, i),
            level,
            x,
        ) == below(v, t, treenode::root_at(pl, i), level, x) by {
            lemma_same_nodes(v, t, t1, treenode::root_at(pl, i), level, x);
        }
    }
    assert forall|f: int| 0 <= f implies #[trigger] mapping::tree_map(v, t1, pl, f)
        == mapping::tree_map(v, t, pl, f) by {
        let c = treenode::cover(level);
        treenode::lemma_cover_monotonic(level, level);
        tree_laws::lemma_place(f, c, f / c);
        if f / c < ROOT_FANOUT {
            lemma_map_kept(v, t, t1, treenode::root_at(pl, f / c), level, f % c);
        }
    }
}

/// A tree in order whose nodes hold what they held stays in order.
pub proof fn lemma_tree_kept(
    v: Vol,
    t: Map<u64, Seq<u8>>,
    hdr: AgHeader,
    t1: Map<u64, Seq<u8>>,
    pl: Seq<u8>,
)
    requires
        tidy_tree(v, t, hdr, pl),
        plain(v, t, pl),
        stays(v, t, hdr, t1, hdr),
        forall|x: u64| #[trigger]
            in_tree(v, t, pl, x) ==> vol::rd(v, t1, x) == vol::rd(v, t, x),
    ensures
        tidy_tree(v, t1, hdr, pl),
        plain(v, t1, pl),
{
    lemma_same_tree(v, t, t1, pl);
    let level = pl[0] as int;
    assert forall|i: int| 0 <= i < ROOT_FANOUT implies tidy(
        v,
        t1,
        hdr,
        #[trigger] treenode::root_at(pl, i),
        level,
    ) by {
        lemma_tidy_kept(v, t, hdr, t1, hdr, treenode::root_at(pl, i), level);
    }
    assert(apart(v, t1, pl)) by {
        reveal(apart);
        assert forall|i: int, x: u64|
            0 <= i < ROOT_FANOUT && #[trigger] below(
                v,
                t1,
                treenode::root_at(pl, i),
                level,
                x,
            ) implies below(v, t, treenode::root_at(pl, i), level, x) by {
            lemma_same_nodes(v, t, t1, treenode::root_at(pl, i), level, x);
        }
    }
    assert(plain(v, t1, pl)) by {
        reveal(plain);
    }
}

/// A tree that grows in two steps.
pub proof fn lemma_tree_twice(
    v: Vol,
    t: Map<u64, Seq<u8>>,
    hdr: AgHeader,
    pl: Seq<u8>,
    t1: Map<u64, Seq<u8>>,
    hdr1: AgHeader,
    pl1: Seq<u8>,
    t2: Map<u64, Seq<u8>>,
    hdr2: AgHeader,
    pl2: Seq<u8>,
    lo: int,
    mid: int,
    hi: int,
    put: Option<int>,
)
    requires
        lo <= mid <= hi,
        tree_grew(v, t, hdr, pl, t1, hdr1, pl1, lo, mid, put),
        tree_grew(v, t1, hdr1, pl1, t2, hdr2, pl2, mid, hi, put),
    ensures
        tree_grew(v, t, hdr, pl, t2, hdr2, pl2, lo, hi, put),
{
    assert forall|x: u64| #[trigger] in_tree(v, t2, pl2, x) implies in_tree(v, t, pl, x)
        || !spares::kept_safe(v, t, hdr, x) by {
        if spares::kept_safe(v, t, hdr, x) {
            assert(spares::kept_safe(v, t1, hdr1, x));
            assert(in_tree(v, t1, pl1, x));
        }
    }
    assert forall|f: int| 0 <= f implies #[trigger] block_grew(
        v,
        t,
        hdr,
        pl,
        t2,
        pl2,
        lo,
        hi,
        put,
        f,
    ) by {
        assert(block_grew(v, t, hdr, pl, t1, pl1, lo, mid, put, f));
        assert(block_grew(v, t1, hdr1, pl1, t2, pl2, mid, hi, put, f));
        reveal(block_grew);
        let a1 = tree_laws::address(mapping::tree_map(v, t1, pl1, f));
        let a2 = tree_laws::address(mapping::tree_map(v, t2, pl2, f));
        if a2 is Some && spares::kept_safe(v, t, hdr, a2->Some_0) {
            assert(spares::kept_safe(v, t1, hdr1, a2->Some_0));
        }
        if a1 is Some {
            lemma_tree_mapped_safe(v, t1, hdr1, pl1, f);
            if in_tree(v, t2, pl2, a1->Some_0) {
                assert(in_tree(v, t1, pl1, a1->Some_0));
            }
        }
    }
    assert forall|x: u64|
        spares::kept_safe(v, t, hdr, x) && !in_tree(v, t, pl, x) implies #[trigger] vol::rd(
        v,
        t2,
        x,
    ) == vol::rd(v, t, x) by {
        assert(vol::rd(v, t1, x) == vol::rd(v, t, x));
        assert(spares::kept_safe(v, t1, hdr1, x));
        if in_tree(v, t1, pl1, x) {
            assert(in_tree(v, t, pl, x));
        }
    }
    assert forall|x: u64| spares::kept_safe(v, t, hdr, x) implies #[trigger] spares::kept_safe(
        v,
        t2,
        hdr2,
        x,
    ) by {
        assert(spares::kept_safe(v, t1, hdr1, x));
    }
}

/// Growing a child of the root leaves the nodes below the others alone.
proof fn lemma_root_sibling(
    v: Vol,
    t: Map<u64, Seq<u8>>,
    hdr: AgHeader,
    pl: Seq<u8>,
    t1: Map<u64, Seq<u8>>,
    hdr1: AgHeader,
    i: int,
    j: int,
)
    requires
        tidy_tree(v, t, hdr, pl),
        0 <= i < ROOT_FANOUT,
        0 <= j < ROOT_FANOUT,
        j != i,
        frame(v, t, hdr, t1, hdr1, treenode::root_at(pl, i), pl[0] as int, None),
    ensures
        same_below(v, t, t1, treenode::root_at(pl, j), pl[0] as int),
{
    let s = treenode::root_at(pl, j);
    assert forall|x: u64| below(v, t, s, pl[0] as int, x) implies #[trigger] vol::rd(v, t1, x)
        == vol::rd(v, t, x) by {
        reveal(apart);
        assert(tidy(v, t, hdr, s, pl[0] as int));
        lemma_below_safe(v, t, hdr, s, pl[0] as int, x);
        assert(!below(v, t, treenode::root_at(pl, i), pl[0] as int, x));
    }
}

/// Growing child `i` of the root is growing the tree.
#[verifier::rlimit(40)]
pub proof fn lemma_root_part(
    v: Vol,
    t: Map<u64, Seq<u8>>,
    hdr: AgHeader,
    pl: Seq<u8>,
    t1: Map<u64, Seq<u8>>,
    hdr1: AgHeader,
    pl1: Seq<u8>,
    i: int,
    lo: int,
    hi: int,
    put: Option<int>,
)
    requires
        tidy_tree(v, t, hdr, pl),
        0 <= i < ROOT_FANOUT,
        pl1.len() == 128,
        pl1[0] == pl[0],
        frame(v, t, hdr, t1, hdr1, treenode::root_at(pl, i), pl[0] as int, None),
        forall|j: int|
            0 <= j < ROOT_FANOUT && j != i ==> #[trigger] treenode::root_at(pl1, j)
                == treenode::root_at(pl, j),
        grew(
            v,
            t,
            hdr,
            treenode::root_at(pl, i),
            t1,
            hdr1,
            treenode::root_at(pl1, i),
            pl[0] as int,
            lo - i * treenode::cover(pl[0] as int),
            hi - i * treenode::cover(pl[0] as int),
            from_on(put, i * treenode::cover(pl[0] as int)),
        ),
        i * treenode::cover(pl[0] as int) <= lo,
        hi <= i * treenode::cover(pl[0] as int) + treenode::cover(pl[0] as int),
    ensures
        tree_grew(v, t, hdr, pl, t1, hdr1, pl1, lo, hi, put),
{
    let level = pl[0] as int;
    let c = treenode::cover(level);
    let k = treenode::root_at(pl, i);
    let k1 = treenode::root_at(pl1, i);
    treenode::lemma_cover_monotonic(level, level);
    assert forall|j: int| 0 <= j < ROOT_FANOUT && j != i implies same_below(
        v,
        t,
        t1,
        #[trigger] treenode::root_at(pl, j),
        level,
    ) by {
        lemma_root_sibling(v, t, hdr, pl, t1, hdr1, i, j);
    }
    assert forall|j: int| 0 <= j < ROOT_FANOUT implies tidy(
        v,
        t1,
        hdr1,
        #[trigger] treenode::root_at(pl1, j),
        level,
    ) by {
        if j != i {
            assert(tidy(v, t, hdr, treenode::root_at(pl, j), level));
            lemma_tidy_kept(v, t, hdr, t1, hdr1, treenode::root_at(pl, j), level);
        }
    }
    assert forall|j: int, x: u64|
        0 <= j < ROOT_FANOUT && #[trigger] below(
            v,
            t1,
            treenode::root_at(pl1, j),
            level,
            x,
        ) implies if j == i {
        below(v, t, k, level, x) || !spares::kept_safe(v, t, hdr, x)
    } else {
        below(v, t, treenode::root_at(pl, j), level, x) && spares::kept_safe(v, t, hdr, x)
    } by {
        if j != i {
            let s = treenode::root_at(pl, j);
            lemma_same_nodes(v, t, t1, s, level, x);
            assert(tidy(v, t, hdr, s, level));
            lemma_below_safe(v, t, hdr, s, level, x);
        }
    }
    assert(apart(v, t1, pl1)) by {
        reveal(apart);
    }
    assert forall|x: u64| #[trigger] in_tree(v, t1, pl1, x) implies in_tree(v, t, pl, x)
        || !spares::kept_safe(v, t, hdr, x) by {
        let j = choose|j: int|
            0 <= j < ROOT_FANOUT && below(v, t1, #[trigger] treenode::root_at(pl1, j), level, x);
        assert(below(v, t1, treenode::root_at(pl1, j), level, x));
        if spares::kept_safe(v, t, hdr, x) {
            assert(below(v, t, treenode::root_at(pl, j), level, x));
        }
    }
    assert forall|f: int| 0 <= f implies #[trigger] block_grew(
        v,
        t,
        hdr,
        pl,
        t1,
        pl1,
        lo,
        hi,
        put,
        f,
    ) by {
        tree_laws::lemma_place(f, c, i);
        let j = f / c;
        if j == i {
            assert(grew_at(
                v,
                t,
                hdr,
                k,
                t1,
                k1,
                level,
                lo - i * c,
                hi - i * c,
                from_on(put, i * c),
                f % c,
            ));
            let a1 = tree_laws::address(mapping::child_map(v, t1, k1, f % c, level));
            if a1 is Some && !spares::kept_safe(v, t, hdr, a1->Some_0) && in_tree(
                v,
                t1,
                pl1,
                a1->Some_0,
            ) {
                let j1 = choose|j1: int|
                    0 <= j1 < ROOT_FANOUT && below(
                        v,
                        t1,
                        #[trigger] treenode::root_at(pl1, j1),
                        level,
                        a1->Some_0,
                    );
                assert(below(v, t1, treenode::root_at(pl1, j1), level, a1->Some_0));
            }
        } else if j < ROOT_FANOUT {
            lemma_map_kept(v, t, t1, treenode::root_at(pl, j), level, f % c);
        }
        reveal(grew_at);
        reveal(block_grew);
    }
    assert forall|x: u64|
        spares::kept_safe(v, t, hdr, x) && !in_tree(v, t, pl, x) implies #[trigger] vol::rd(
        v,
        t1,
        x,
    ) == vol::rd(v, t, x) by {
        assert(!below(v, t, treenode::root_at(pl, i), level, x));
    }
}

/// No allocation that fails while the root grows spoils the tables.
pub open spec fn steady_root(v: Vol, w: Work, ag: u32, pl: Seq<u8>, level: int, pos: int, end: int) -> bool
    decreases end - pos,
{
    let c = treenode::cover(level);
    let i = pos / c;
    let cs = i * c;
    let stop = if end < cs + c {
        end
    } else {
        cs + c
    };
    pos >= end || stop <= pos || {
        let (w1, par1, r1) = extent::child_fit(v, w, ag, Par::Root(pl), i, level, cs, pos, stop);
        &&& steady(v, w, ag, Par::Root(pl), i, level, cs, pos, stop)
        &&& r1 is Ok ==> steady_root(v, w1, ag, par1->Root_0, level, stop, end)
    }
}

/// One step over the children of the root.
pub proof fn lemma_root_step(pos: int, end: int, c: int)
    requires
        c >= 1,
        0 <= pos < end <= ROOT_FANOUT * c,
    ensures
        ({
            let i = pos / c;
            let cs = i * c;
            let stop = if end < cs + c {
                end
            } else {
                cs + c
            };
            &&& 0 <= i < ROOT_FANOUT
            &&& cs <= pos < stop <= end
            &&& stop <= cs + c
        }),
{
    tree_laws::lemma_place(pos, c, pos / c);
    assert(pos / c < 6) by (nonlinear_arith)
        requires
            0 <= pos < 6 * c,
            c >= 1,
    ;
}

/// A tree that does not change has grown over an empty range.
pub proof fn lemma_tree_same(v: Vol, t: Map<u64, Seq<u8>>, hdr: AgHeader, pl: Seq<u8>, lo: int, hi: int, put: Option<int>)
    requires
        tidy_tree(v, t, hdr, pl),
        lo >= hi,
    ensures
        tree_grew(v, t, hdr, pl, t, hdr, pl, lo, hi, put),
{
    reveal(block_grew);
}

/// The root grows.
#[verifier::rlimit(60)]
pub proof fn lemma_root_fit(
    v: Vol,
    w: Work,
    ag: u32,
    hdr: AgHeader,
    pl: Seq<u8>,
    pos: int,
    end: int,
) -> (hdr1: AgHeader)
    requires
        v.bs >= 2048,
        tree_laws::settled(v, w.p.t, ag, hdr),
        tidy_tree(v, w.p.t, hdr, pl),
        0 <= pos <= end <= ROOT_FANOUT * treenode::cover(pl[0] as int),
        steady_root(v, w, ag, pl, pl[0] as int, pos, end),
        extent::root_fit(v, w, ag, pl, pl[0] as int, pos, end).2 is Ok,
    ensures
        ({
            let (w1, pl1, _) = extent::root_fit(v, w, ag, pl, pl[0] as int, pos, end);
            &&& tree_laws::settled(v, w1.p.t, ag, hdr1)
            &&& tree_grew(v, w.p.t, hdr, pl, w1.p.t, hdr1, pl1, pos, end, None::<int>)
        }),
    decreases end - pos,
{
    reveal(extent::root_fit);
    let t = w.p.t;
    let level = pl[0] as int;
    let c = treenode::cover(level);
    treenode::lemma_cover_monotonic(level, level);
    if pos >= end {
        lemma_tree_same(v, t, hdr, pl, pos, end, None::<int>);
        hdr
    } else {
        lemma_root_step(pos, end, c);
        let i = pos / c;
        let cs = i * c;
        let stop = if end < cs + c {
            end
        } else {
            cs + c
        };
        let par = Par::Root(pl);
        let k = treenode::root_at(pl, i);
        assert(tidy(v, t, hdr, k, level));
        let (w1, par1, _) = extent::child_fit(v, w, ag, par, i, level, cs, pos, stop);
        let (hdr1, k1) = lemma_child_fit(v, w, ag, hdr, par, i, level, k, cs, pos, stop);
        let pl1 = par1->Root_0;
        assert(par1 is Root);
        assert forall|j: int| 0 <= j < ROOT_FANOUT && j != i implies #[trigger] treenode::root_at(
            pl1,
            j,
        ) == treenode::root_at(pl, j) by {
            assert(extent::par_get(v, w1.p.t, par1, j) == extent::par_get(v, t, par, j));
        }
        lemma_root_part(v, t, hdr, pl, w1.p.t, hdr1, pl1, i, pos, stop, None::<int>);
        let hdr2 = lemma_root_fit(v, w1, ag, hdr1, pl1, stop, end);
        let (w2, pl2, _) = extent::root_fit(v, w1, ag, pl1, level, stop, end);
        lemma_tree_twice(
            v,
            t,
            hdr,
            pl,
            w1.p.t,
            hdr1,
            pl1,
            w2.p.t,
            hdr2,
            pl2,
            pos,
            stop,
            end,
            None::<int>,
        );
        hdr2
    }
}

// --- raising the root ---------------------------------------------------------

/// The nodes of a child in order are blocks in use.
proof fn lemma_nodes_safe(v: Vol, t: Map<u64, Seq<u8>>, hdr: AgHeader, ch: Child, level: int)
    requires
        tidy(v, t, hdr, ch, level),
    ensures
        tree_laws::nodes_safe(v, t, hdr, ch, level),
    decreases level,
{
    if ch.st == CELL_REFINED {
        assert forall|i: int| 0 <= i < 64 implies tree_laws::nodes_safe(
            v,
            t,
            hdr,
            #[trigger] treenode::node_at(
                treenode::node_level_of(v, t, ch.addr, level - 1)->Ok_0,
                i,
            ),
            level - 1,
        ) by {
            let k = kid(v, t, ch, level, i);
            assert(tidy(v, t, hdr, k, level - 1));
            lemma_nodes_safe(v, t, hdr, k, level - 1);
        }
    }
}

/// A child in order whose blocks in use are kept has the nodes that it had.
proof fn lemma_use_same(
    v: Vol,
    t: Map<u64, Seq<u8>>,
    hdr: AgHeader,
    t1: Map<u64, Seq<u8>>,
    hdr1: AgHeader,
    ch: Child,
    level: int,
)
    requires
        tidy(v, t, hdr, ch, level),
        tree_laws::use_kept(v, t, hdr, t1, hdr1),
    ensures
        tidy(v, t1, hdr1, ch, level),
        forall|x: u64| #[trigger]
            below(v, t1, ch, level, x) ==> below(v, t, ch, level, x) && spares::kept_safe(
                v,
                t,
                hdr,
                x,
            ),
{
    assert forall|x: u64| below(v, t, ch, level, x) implies #[trigger] vol::rd(v, t1, x) == vol::rd(
        v,
        t,
        x,
    ) by {
        lemma_below_safe(v, t, hdr, ch, level, x);
    }
    assert(same_below(v, t, t1, ch, level)) by {
        assert forall|x: u64| #[trigger] below(v, t, ch, level, x) implies vol::rd(v, t1, x)
            == vol::rd(v, t, x) by {
            assert(vol::rd(v, t1, x) == vol::rd(v, t, x));
        }
    }
    lemma_tidy_kept(v, t, hdr, t1, hdr1, ch, level);
    assert forall|x: u64| #[trigger] below(v, t1, ch, level, x) implies below(v, t, ch, level, x)
        && spares::kept_safe(v, t, hdr, x) by {
        lemma_same_nodes(v, t, t1, ch, level, x);
        lemma_below_safe(v, t, hdr, ch, level, x);
    }
}

/// A node that holds the children of a root in order is in order.
#[verifier::rlimit(40)]
proof fn lemma_lifted(
    v: Vol,
    t: Map<u64, Seq<u8>>,
    hdr: AgHeader,
    pl: Seq<u8>,
    t1: Map<u64, Seq<u8>>,
    hdr1: AgHeader,
    node: u64,
    b: Seq<u8>,
)
    requires
        tidy_tree(v, t, hdr, pl),
        tree_laws::use_kept(v, t, hdr, t1, hdr1),
        !spares::kept_safe(v, t, hdr, node),
        spares::kept_safe(v, t1, hdr1, node),
        treenode::node_level_of(v, t1, node, pl[0] as int) == Ok::<Seq<u8>, FsError>(b),
        b.len() == v.bs,
        forall|j: int|
            0 <= j < 64 ==> if j < ROOT_FANOUT && treenode::root_at(pl, j).st != CELL_FREE {
                #[trigger] treenode::node_at(b, j) == treenode::root_at(pl, j)
            } else {
                treenode::node_at(b, j).st == CELL_FREE
            },
    ensures
        ({
            let new = Child { st: CELL_REFINED, blocks: 0, addr: node };
            &&& tidy(v, t1, hdr1, new, pl[0] + 1)
            &&& forall|x: u64| #[trigger]
                below(v, t1, new, pl[0] + 1, x) ==> x == node || in_tree(v, t, pl, x)
        }),
{
    let new = Child { st: CELL_REFINED, blocks: 0, addr: node };
    let level = pl[0] as int;
    assert forall|j: int| 0 <= j < 64 implies #[trigger] kid(v, t1, new, level + 1, j)
        == treenode::node_at(b, j) && tidy(v, t1, hdr1, kid(v, t1, new, level + 1, j), level) by {
        if j < ROOT_FANOUT && treenode::root_at(pl, j).st != CELL_FREE {
            assert(tidy(v, t, hdr, treenode::root_at(pl, j), level));
            lemma_use_same(v, t, hdr, t1, hdr1, treenode::root_at(pl, j), level);
        }
    }
    assert forall|j: int, x: u64|
        0 <= j < 64 && #[trigger] below(v, t1, kid(v, t1, new, level + 1, j), level, x) implies j
        < ROOT_FANOUT && below(v, t, treenode::root_at(pl, j), level, x) && spares::kept_safe(
        v,
        t,
        hdr,
        x,
    ) by {
        assert(kid(v, t1, new, level + 1, j) == treenode::node_at(b, j));
        assert(tidy(v, t, hdr, treenode::root_at(pl, j), level));
        lemma_use_same(v, t, hdr, t1, hdr1, treenode::root_at(pl, j), level);
    }
    assert(lone(v, t1, new, level + 1)) by {
        reveal(lone);
        reveal(apart);
    }
    assert forall|x: u64| #[trigger] below(v, t1, new, level + 1, x) implies x == node || in_tree(
        v,
        t,
        pl,
        x,
    ) by {
        if x != node {
            let j = choose|j: int|
                0 <= j < 64 && below(v, t1, #[trigger] kid(v, t1, new, level + 1, j), level, x);
            assert(below(v, t1, kid(v, t1, new, level + 1, j), level, x));
            assert(below(v, t, treenode::root_at(pl, j), level, x));
        }
    }
}

/// Raising a root that maps something is growing the tree over an empty range.
#[verifier::rlimit(40)]
proof fn lemma_root_raised(v: Vol, p: Pool, ag: u32, hdr: AgHeader, pl: Seq<u8>, lo: int) -> (hdr1:
    AgHeader)
    requires
        v.bs >= 2048,
        tree_laws::settled(v, p.t, ag, hdr),
        tidy_tree(v, p.t, hdr, pl),
        pl[0] < MAX_LEVEL,
        extent::root_any(pl),
        extent::root_grown(v, p, ag, pl).2 is Ok,
    ensures
        ({
            let (p1, pl1, _) = extent::root_grown(v, p, ag, pl);
            &&& tree_laws::settled(v, p1.t, ag, hdr1)
            &&& pl1[0] == pl[0] + 1
            &&& extent::root_any(pl1)
            &&& tree_grew(v, p.t, hdr, pl, p1.t, hdr1, pl1, lo, lo, None::<int>)
        }),
{
    let t = p.t;
    let (p1, pl1, _) = extent::root_grown(v, p, ag, pl);
    let t1 = p1.t;
    assert forall|i: int| 0 <= i < ROOT_FANOUT implies tree_laws::nodes_safe(
        v,
        t,
        hdr,
        #[trigger] treenode::root_at(pl, i),
        pl[0] as int,
    ) by {
        lemma_nodes_safe(v, t, hdr, treenode::root_at(pl, i), pl[0] as int);
    }
    let _ = tree_laws::law_raising_the_root_keeps_the_file(v, p, ag, hdr, pl);
    let (hdr1, node, b) = tree_laws::lemma_raised_parts(v, p, ag, hdr, pl);
    lemma_lifted(v, t, hdr, pl, t1, hdr1, node, b);
    let level = pl1[0] as int;
    assert forall|i: int| 0 <= i < ROOT_FANOUT implies tidy(
        v,
        t1,
        hdr1,
        #[trigger] treenode::root_at(pl1, i),
        level,
    ) && (i != 0 ==> treenode::root_at(pl1, i).st == CELL_FREE) by {
    }
    assert(apart(v, t1, pl1)) by {
        reveal(apart);
    }
    assert forall|x: u64| #[trigger] in_tree(v, t1, pl1, x) implies in_tree(v, t, pl, x)
        || !spares::kept_safe(v, t, hdr, x) by {
        let i = choose|i: int|
            0 <= i < ROOT_FANOUT && below(v, t1, #[trigger] treenode::root_at(pl1, i), level, x);
        assert(i == 0);
        assert(below(v, t1, treenode::root_at(pl1, 0), level, x));
    }
    assert forall|f: int| 0 <= f implies #[trigger] block_grew(
        v,
        t,
        hdr,
        pl,
        t1,
        pl1,
        lo,
        lo,
        None::<int>,
        f,
    ) by {
        reveal(block_grew);
        assert(tree_laws::address(mapping::tree_map(v, t1, pl1, f)) == tree_laws::address(
            mapping::tree_map(v, t, pl, f),
        ));
    }
    assert(treenode::root_at(pl1, 0).st != CELL_FREE);
    hdr1
}

/// Freeing a node spares every other block in use.
proof fn lemma_spared(
    v: Vol,
    t: Map<u64, Seq<u8>>,
    hdr: AgHeader,
    t1: Map<u64, Seq<u8>>,
    hdr1: AgHeader,
    node: u64,
    x: u64,
)
    requires
        fmt::addr_ag(node) == hdr.ag_num,
        tables::same_place(hdr, hdr1),
        allocator_laws::given(
            v,
            t,
            t1,
            hdr,
            fmt::addr_local(node) as int,
            fmt::addr_local(node) + 1,
        ),
        frees::leaves(v, t, t1, hdr),
        spares::kept_safe(v, t, hdr, x),
        x != node,
    ensures
        spares::kept_safe(v, t1, hdr1, x),
        vol::rd(v, t1, x) == vol::rd(v, t, x),
{
    let l = fmt::addr_local(node) as int;
    assert(frees::idle(v, t, hdr, x));
    if fmt::addr_ag(x) == hdr.ag_num {
        let k = fmt::addr_local(x) as int;
        fmt::law_address_halves(0, 0, x);
        fmt::law_address_halves(0, 0, node);
        assert(k != l);
        assert(allocator_laws::given_at(v, t, t1, hdr, l, l + 1, k));
        tables::lemma_state_place(v, t1, hdr, hdr1, k);
    }
}

/// A node that was allocated and is freed again leaves no trace in what is in use.
#[verifier::rlimit(40)]
proof fn lemma_node_back(v: Vol, p: Pool, ag: u32, hdr: AgHeader, level: u8, b: Seq<u8>) -> (hdr1:
    AgHeader)
    requires
        v.bs >= 2048,
        tree_laws::settled(v, p.t, ag, hdr),
        extent::node_new(v, p, ag, level).1 is Ok,
        b.len() == v.bs,
        fmt::has_magic(b, TREE_MAGIC),
        ({
            let (p1, r1) = extent::node_new(v, p, ag, level);
            let p2 = Pool { t: treenode::node_to(p1.t, r1->Ok_0, b), ..p1 };
            allocator::freed(v, p2, r1->Ok_0, 1).1 is Ok
        }),
    ensures
        ({
            let (p1, r1) = extent::node_new(v, p, ag, level);
            let p2 = Pool { t: treenode::node_to(p1.t, r1->Ok_0, b), ..p1 };
            let p3 = allocator::freed(v, p2, r1->Ok_0, 1).0;
            &&& tree_laws::settled(v, p3.t, ag, hdr1)
            &&& tree_laws::use_kept(v, p.t, hdr, p3.t, hdr1)
        }),
{
    let (p1, r1) = extent::node_new(v, p, ag, level);
    let node = r1->Ok_0;
    let h1 = tree_laws::lemma_node_new(v, p, ag, hdr, level);
    let p2 = Pool { t: treenode::node_to(p1.t, node, b), ..p1 };
    tree_laws::lemma_node_to(v, p1.t, ag, h1, node, b);
    let p3 = allocator::freed(v, p2, node, 1).0;
    let l = fmt::addr_local(node) as int;
    grants::lemma_fine_kept(v, p1.t, p2.t, h1, l);
    grants::lemma_single_freed(v, p2, node, h1);
    frees::law_freeing_writes_to_tables_only(v, p2, node, h1, 1);
    let h3 = fs::header_of(v, p3.t, ag)->Ok_0;
    assert forall|x: u64| spares::kept_safe(v, p.t, hdr, x) implies #[trigger] spares::kept_safe(
        v,
        p3.t,
        h3,
        x,
    ) by {
        assert(spares::kept_safe(v, p1.t, h1, x));
        assert(spares::kept_safe(v, p2.t, h1, x));
        lemma_spared(v, p2.t, h1, p3.t, h3, node, x);
    }
    assert forall|x: u64| spares::kept_safe(v, p.t, hdr, x) implies #[trigger] vol::rd(v, p3.t, x)
        == vol::rd(v, p.t, x) by {
        assert(spares::kept_safe(v, p1.t, h1, x));
        assert(vol::rd(v, p1.t, x) == vol::rd(v, p.t, x));
        assert(spares::kept_safe(v, p2.t, h1, x));
        lemma_spared(v, p2.t, h1, p3.t, h3, node, x);
    }
    h3
}

/// Raising a root that maps nothing is growing the tree over an empty range.
#[verifier::rlimit(40)]
proof fn lemma_vacant_raised(v: Vol, p: Pool, ag: u32, hdr: AgHeader, pl: Seq<u8>, lo: int) -> (hdr1:
    AgHeader)
    requires
        v.bs >= 2048,
        tree_laws::settled(v, p.t, ag, hdr),
        tidy_tree(v, p.t, hdr, pl),
        pl[0] < MAX_LEVEL,
        !extent::root_any(pl),
        extent::root_grown(v, p, ag, pl).2 is Ok,
    ensures
        ({
            let (p1, pl1, _) = extent::root_grown(v, p, ag, pl);
            &&& tree_laws::settled(v, p1.t, ag, hdr1)
            &&& pl1[0] == pl[0] + 1
            &&& tree_grew(v, p.t, hdr, pl, p1.t, hdr1, pl1, lo, lo, None::<int>)
        }),
{
    let t = p.t;
    let (p3, pl1, _) = extent::root_grown(v, p, ag, pl);
    assert forall|i: int| 0 <= i < ROOT_FANOUT implies tree_laws::nodes_safe(
        v,
        t,
        hdr,
        #[trigger] treenode::root_at(pl, i),
        pl[0] as int,
    ) by {
        lemma_nodes_safe(v, t, hdr, treenode::root_at(pl, i), pl[0] as int);
    }
    let _ = tree_laws::law_raising_the_root_keeps_the_file(v, p, ag, hdr, pl);
    tree_laws::lemma_empty_root((pl[0] + 1) as u8);
    reveal(extent::root_grown);
    let (p1, r1) = extent::node_new(v, p, ag, pl[0]);
    let _ = tree_laws::lemma_node_new(v, p, ag, hdr, pl[0]);
    tree_laws::lemma_empty_node(v.bs, pl[0]);
    let b = treenode::node_of(v, p1.t, r1->Ok_0)->Ok_0;
    tree_laws::lemma_gathered(b, pl, 0);
    let hdr1 = lemma_node_back(v, p, ag, hdr, pl[0], extent::gathered(b, pl, 0));
    assert(apart(v, p3.t, pl1)) by {
        reveal(apart);
    }
    assert forall|f: int| 0 <= f implies #[trigger] block_grew(
        v,
        t,
        hdr,
        pl,
        p3.t,
        pl1,
        lo,
        lo,
        None::<int>,
        f,
    ) by {
        reveal(block_grew);
        assert(tree_laws::address(mapping::tree_map(v, p3.t, pl1, f)) == tree_laws::address(
            mapping::tree_map(v, t, pl, f),
        ));
    }
    hdr1
}

/// Raising the root until it covers a range.
#[verifier::rlimit(40)]
pub proof fn lemma_grown_to(
    v: Vol,
    p: Pool,
    ag: u32,
    hdr: AgHeader,
    pl: Seq<u8>,
    end: int,
    lo: int,
) -> (hdr1: AgHeader)
    requires
        v.bs >= 2048,
        tree_laws::settled(v, p.t, ag, hdr),
        tidy_tree(v, p.t, hdr, pl),
        extent::grown_to(v, p, ag, pl, pl[0] as int, end).2 is Ok,
    ensures
        ({
            let (p1, pl1, _) = extent::grown_to(v, p, ag, pl, pl[0] as int, end);
            &&& tree_laws::settled(v, p1.t, ag, hdr1)
            &&& end <= ROOT_FANOUT * treenode::cover(pl1[0] as int)
            &&& tree_grew(v, p.t, hdr, pl, p1.t, hdr1, pl1, lo, lo, None::<int>)
        }),
    decreases MAX_LEVEL - pl[0],
{
    reveal(extent::grown_to);
    if end <= ROOT_FANOUT * treenode::cover(pl[0] as int) {
        lemma_tree_same(v, p.t, hdr, pl, lo, lo, None::<int>);
        hdr
    } else {
        let (p1, pl1, _) = extent::root_grown(v, p, ag, pl);
        let hdr1 = if extent::root_any(pl) {
            lemma_root_raised(v, p, ag, hdr, pl, lo)
        } else {
            lemma_vacant_raised(v, p, ag, hdr, pl, lo)
        };
        let hdr2 = lemma_grown_to(v, p1, ag, hdr1, pl1, end, lo);
        let (p2, pl2, _) = extent::grown_to(v, p1, ag, pl1, pl1[0] as int, end);
        lemma_tree_twice(v, p.t, hdr, pl, p1.t, hdr1, pl1, p2.t, hdr2, pl2, lo, lo, lo, None::<int>);
        hdr2
    }
}

// --- growing a file -----------------------------------------------------------

/// No allocation that fails while the tree with root `pl` grows over `n` blocks from
/// `f` on spoils the tables.
pub open spec fn steady_tree(v: Vol, w: Work, ag: u32, pl: Seq<u8>, f: int, n: int) -> bool {
    let (p1, pl1, r1) = extent::grown_to(v, w.p, ag, pl, pl[0] as int, f + n);
    r1 is Ok ==> steady_root(v, Work { p: p1, ..w }, ag, pl1, pl1[0] as int, f, f + n)
}

/// A tree that grows.
pub proof fn lemma_tree_ensured(
    v: Vol,
    w: Work,
    ag: u32,
    hdr: AgHeader,
    m: Mp,
    f: int,
    n: int,
) -> (hdr1: AgHeader)
    requires
        v.bs >= 2048,
        m.format == FMT_TREE,
        tree_laws::settled(v, w.p.t, ag, hdr),
        tidy_tree(v, w.p.t, hdr, m.payload),
        0 <= f,
        0 <= n,
        steady_tree(v, w, ag, m.payload, f, n),
        extent::tree_ensured(v, w, ag, m, f, n).2 is Ok,
    ensures
        ({
            let (p1, m1, _) = extent::tree_ensured(v, w, ag, m, f, n);
            &&& m1.format == FMT_TREE
            &&& tree_laws::settled(v, p1.t, ag, hdr1)
            &&& tree_grew(v, w.p.t, hdr, m.payload, p1.t, hdr1, m1.payload, f, f + n, None::<int>)
        }),
{
    let p = w.p;
    let (p1, pl1, _) = extent::grown_to(v, p, ag, m.payload, m.payload[0] as int, f + n);
    let hdr1 = lemma_grown_to(v, p, ag, hdr, m.payload, f + n, f);
    let w1 = Work { p: p1, ..w };
    let hdr2 = lemma_root_fit(v, w1, ag, hdr1, pl1, f, f + n);
    let (w2, pl2, _) = extent::root_fit(v, w1, ag, pl1, pl1[0] as int, f, f + n);
    lemma_tree_twice(
        v,
        p.t,
        hdr,
        m.payload,
        p1.t,
        hdr1,
        pl1,
        w2.p.t,
        hdr2,
        pl2,
        f,
        f,
        f + n,
        None::<int>,
    );
    hdr2
}

/// A file with an extent tree that grows, in one piece or in several, keeps every
/// block that it had, where it was; every block of the range is mapped; and blocks
/// that are new to the file were not in use. Every block in use but the tree's own
/// nodes holds what it held, the file's data with them. Afterwards the tree is in
/// order and the tables are sound again. Left out is a group with so little room
/// that an allocation fails halfway through a change of the tables themselves.
pub proof fn law_growing_a_tree_keeps_the_file(
    v: Vol,
    p: Pool,
    ag: u32,
    hdr: AgHeader,
    m: Mp,
    f: int,
    n: int,
) -> (hdr1: AgHeader)
    requires
        v.bs >= 2048,
        m.format == FMT_TREE,
        tree_laws::settled(v, p.t, ag, hdr),
        tidy_tree(v, p.t, hdr, m.payload),
        0 <= f,
        0 <= n,
        steady_tree(v, Work { p, fresh: Seq::empty() }, ag, m.payload, f, n),
        extent::ensured(v, p, ag, m, f, n).2 is Ok,
    ensures
        ({
            let (p1, m1, _) = extent::ensured(v, p, ag, m, f, n);
            &&& m1.format == FMT_TREE
            &&& tree_laws::settled(v, p1.t, ag, hdr1)
            &&& tree_grew(v, p.t, hdr, m.payload, p1.t, hdr1, m1.payload, f, f + n, None::<int>)
        }),
{
    lemma_tree_ensured(v, Work { p, fresh: Seq::empty() }, ag, hdr, m, f, n)
}

} // verus!
