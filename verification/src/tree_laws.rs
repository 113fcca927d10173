//! Extent trees that change shape: raising the root by a level, replacing a child
//! by a node one level down, and filling a hole keep what the file maps.

use crate::allocator::Pool;
use crate::error::FsError;
use crate::extent::{Mapping, Par, Work};
use crate::fmt::{CELL_FREE, CELL_FULL, CELL_REFINED, CELL_RSVD, ROOT_FANOUT, TREE_MAGIC};
use crate::header::AgHeader;
use crate::treenode::{Child, MAX_LEVEL, NODE_CHILDREN, NODE_STATES, ROOT_CHILDREN, ROOT_STATES};
use crate::vol::Vol;
use vstd::prelude::*;

use crate::allocator;
use crate::allocator_laws;
use crate::extent;
use crate::fmt;
use crate::fs;
use crate::grants;
use crate::mapping;
use crate::roottable;
use crate::spares;
use crate::tables;
use crate::treenode;
use crate::vol;

verus! {

// --- what a tree maps ---------------------------------------------------------

/// The address in a mapping, if there is one.
pub open spec fn address(m: Result<Mapping, FsError>) -> Option<u64> {
    match m {
        Ok(Mapping::Run { blk, len: _ }) => Some(blk),
        _ => None,
    }
}

/// The nodes below a child of level `level` are blocks in use.
pub open spec fn nodes_safe(v: Vol, t: Map<u64, Seq<u8>>, hdr: AgHeader, ch: Child, level: int) -> bool
    decreases level,
{
    ch.st == CELL_REFINED && level > 0 ==> {
        &&& spares::kept_safe(v, t, hdr, ch.addr)
        &&& treenode::node_level_of(v, t, ch.addr, level - 1) is Ok ==> forall|i: int|
            0 <= i < 64 ==> nodes_safe(
                v,
                t,
                hdr,
                #[trigger] treenode::node_at(
                    treenode::node_level_of(v, t, ch.addr, level - 1)->Ok_0,
                    i,
                ),
                level - 1,
            )
    }
}

/// The nodes of a tree with root `pl` are blocks in use.
pub open spec fn tree_safe(v: Vol, t: Map<u64, Seq<u8>>, hdr: AgHeader, pl: Seq<u8>) -> bool {
    forall|i: int|
        0 <= i < ROOT_FANOUT ==> nodes_safe(
            v,
            t,
            hdr,
            #[trigger] treenode::root_at(pl, i),
            pl[0] as int,
        )
}

/// From `t` to `t1` blocks in use stay in use and hold what they held.
pub open spec fn use_kept(v: Vol, t: Map<u64, Seq<u8>>, hdr: AgHeader, t1: Map<u64, Seq<u8>>, hdr1: AgHeader) -> bool {
    &&& forall|x: u64|
        spares::kept_safe(v, t, hdr, x) ==> #[trigger] vol::rd(v, t1, x) == vol::rd(v, t, x)
    &&& forall|x: u64|
        spares::kept_safe(v, t, hdr, x) ==> #[trigger] spares::kept_safe(v, t1, hdr1, x)
}

/// The node below a child whose nodes are kept.
proof fn lemma_node_kept(
    v: Vol,
    t: Map<u64, Seq<u8>>,
    hdr: AgHeader,
    t1: Map<u64, Seq<u8>>,
    hdr1: AgHeader,
    ch: Child,
    level: int,
)
    requires
        use_kept(v, t, hdr, t1, hdr1),
        nodes_safe(v, t, hdr, ch, level),
        ch.st == CELL_REFINED,
        level > 0,
    ensures
        spares::kept_safe(v, t1, hdr1, ch.addr),
        treenode::node_level_of(v, t1, ch.addr, level - 1) == treenode::node_level_of(
            v,
            t,
            ch.addr,
            level - 1,
        ),
{
    assert(spares::kept_safe(v, t, hdr, ch.addr));
    assert(vol::rd(v, t1, ch.addr) == vol::rd(v, t, ch.addr));
}

/// Nodes that are kept stay in use.
proof fn lemma_nodes_kept(
    v: Vol,
    t: Map<u64, Seq<u8>>,
    hdr: AgHeader,
    t1: Map<u64, Seq<u8>>,
    hdr1: AgHeader,
    ch: Child,
    level: int,
)
    requires
        use_kept(v, t, hdr, t1, hdr1),
        nodes_safe(v, t, hdr, ch, level),
    ensures
        nodes_safe(v, t1, hdr1, ch, level),
    decreases level,
{
    if ch.st == CELL_REFINED && level > 0 {
        lemma_node_kept(v, t, hdr, t1, hdr1, ch, level);
        let r = treenode::node_level_of(v, t, ch.addr, level - 1);
        if r is Ok {
            assert forall|i: int| 0 <= i < 64 implies nodes_safe(
                v,
                t1,
                hdr1,
                #[trigger] treenode::node_at(
                    treenode::node_level_of(v, t1, ch.addr, level - 1)->Ok_0,
                    i,
                ),
                level - 1,
            ) by {
                let k = treenode::node_at(r->Ok_0, i);
                assert(nodes_safe(v, t, hdr, k, level - 1));
                lemma_nodes_kept(v, t, hdr, t1, hdr1, k, level - 1);
            }
        }
    }
}

/// A child whose nodes are kept maps what it mapped.
proof fn lemma_child_kept(
    v: Vol,
    t: Map<u64, Seq<u8>>,
    hdr: AgHeader,
    t1: Map<u64, Seq<u8>>,
    hdr1: AgHeader,
    ch: Child,
    level: int,
    rel: int,
)
    requires
        use_kept(v, t, hdr, t1, hdr1),
        nodes_safe(v, t, hdr, ch, level),
        0 <= rel < treenode::cover(level),
    ensures
        mapping::child_map(v, t1, ch, rel, level) == mapping::child_map(v, t, ch, rel, level),
    decreases level,
{
    if ch.st == CELL_REFINED && level > 0 {
        lemma_node_kept(v, t, hdr, t1, hdr1, ch, level);
        let r = treenode::node_level_of(v, t, ch.addr, level - 1);
        let c = treenode::cover(level - 1);
        treenode::lemma_cover_monotonic(level - 1, level - 1);
        if r is Ok {
            lemma_part(rel, c);
            let k = treenode::node_at(r->Ok_0, rel / c);
            assert(nodes_safe(v, t, hdr, k, level - 1));
            lemma_child_kept(v, t, hdr, t1, hdr1, k, level - 1, rel % c);
        }
    }
}

/// Where an offset into 64 children leads.
pub proof fn lemma_part(rel: int, c: int)
    requires
        0 <= rel < 64 * c,
        c >= 1,
    ensures
        0 <= rel / c < 64,
        0 <= rel % c < c,
        rel == c * (rel / c) + rel % c,
{
    vstd::arithmetic::div_mod::lemma_fundamental_div_mod(rel, c);
    assert(0 <= rel / c < 64) by (nonlinear_arith)
        requires
            0 <= rel < 64 * c,
            c >= 1,
    ;
}

// --- nodes --------------------------------------------------------------------

/// `b` is a node of level `level` whose children are those of `kids`.
pub open spec fn is_node(b: Seq<u8>, bs: u32, level: int, kids: Seq<u8>) -> bool {
    &&& b.len() == bs
    &&& fmt::has_magic(b, TREE_MAGIC)
    &&& fmt::csum_ok(b)
    &&& b[16] == level
    &&& forall|i: int| 0 <= i < 64 ==> #[trigger] treenode::node_at(b, i) == treenode::node_at(
        kids,
        i,
    )
}

/// A node as it is stored reads as it was, generation and checksum apart.
pub proof fn lemma_image(b: Seq<u8>, bs: u32)
    requires
        b.len() == bs,
        bs >= 2048,
        fmt::has_magic(b, TREE_MAGIC),
    ensures
        is_node(roottable::table_image(b), bs, b[16] as int, b),
{
    let g = fmt::u64_at(b, 8);
    let b1 = fmt::splice(b, 8, fmt::be64(if g == u64::MAX { 0 } else { (g + 1) as u64 }));
    let img = roottable::table_image(b);
    fmt::lemma_sealed(b1);
    assert forall|i: int| 0 <= i < 4 || 16 <= i < bs implies #[trigger] img[i] == b[i] by {
        assert(b1[i] == b[i]);
    }
    assert forall|i: int| 0 <= i < 64 implies #[trigger] treenode::node_at(img, i)
        == treenode::node_at(b, i) by {
        let o = NODE_CHILDREN + 16 * i;
        assert(img[NODE_STATES + i / 4] == b[NODE_STATES + i / 4]);
        assert(forall|k: int| o <= k < o + 16 ==> #[trigger] img[k] == b[k]);
    }
}

/// An empty node has no children.
pub proof fn lemma_empty_node(bs: u32, level: u8)
    requires
        bs >= 2048,
    ensures
        ({
            let b = treenode::empty_node(bs, level);
            &&& b.len() == bs
            &&& fmt::has_magic(b, TREE_MAGIC)
            &&& b[16] == level
            &&& forall|i: int| 0 <= i < 64 ==> (#[trigger] treenode::node_at(b, i)).st == CELL_FREE
        }),
{
    let b = treenode::empty_node(bs, level);
    assert forall|i: int| 0 <= i < 64 implies (#[trigger] treenode::node_at(b, i)).st
        == CELL_FREE by {
        assert(b[NODE_STATES + i / 4] == 0);
    }
}

/// Tables that are sound under the group's header.
pub open spec fn settled(v: Vol, t: Map<u64, Seq<u8>>, ag: u32, hdr: AgHeader) -> bool {
    &&& fs::header_of(v, t, ag) == Ok::<AgHeader, FsError>(hdr)
    &&& hdr.ag_num == ag
    &&& tables::sound(v, t, hdr)
}

/// Storing a node in a block in use.
pub proof fn lemma_node_to(v: Vol, t: Map<u64, Seq<u8>>, ag: u32, hdr: AgHeader, addr: u64, b: Seq<u8>)
    requires
        v.bs >= 2048,
        settled(v, t, ag, hdr),
        spares::kept_safe(v, t, hdr, addr),
        b.len() == v.bs,
        fmt::has_magic(b, TREE_MAGIC),
    ensures
        ({
            let t1 = treenode::node_to(t, addr, b);
            &&& settled(v, t1, ag, hdr)
            &&& vol::rd(v, t1, addr) matches Ok(img) && is_node(img, v.bs, b[16] as int, b)
            &&& forall|x: u64| x != addr ==> #[trigger] vol::rd(v, t1, x) == vol::rd(v, t, x)
            &&& forall|x: u64|
                spares::kept_safe(v, t, hdr, x) ==> #[trigger] spares::kept_safe(v, t1, hdr, x)
            &&& tables::forms_kept(v, t, t1, hdr)
        }),
{
    lemma_image(b, v.bs);
    tables::lemma_foreign_write(v, t, hdr, addr, roottable::table_image(b));
}

/// The addresses of a run inside a group.
pub proof fn lemma_run_address(addr: u64, n: int, x: int)
    requires
        fmt::addr_local(addr) + n <= 0x1_0000_0000,
        addr <= x < addr + n,
    ensures
        x <= u64::MAX,
        fmt::addr_ag(x as u64) == fmt::addr_ag(addr),
        fmt::addr_local(x as u64) == fmt::addr_local(addr) + (x - addr),
{
}

/// What an allocation does to block `x`: it is free and comes in use if it is
/// one of the run; if it was in use, it still is.
proof fn lemma_run_block(
    v: Vol,
    t: Map<u64, Seq<u8>>,
    hdr: AgHeader,
    t1: Map<u64, Seq<u8>>,
    hdr1: AgHeader,
    addr: u64,
    n: int,
    hi: int,
    x: u64,
)
    requires
        fmt::addr_ag(addr) == hdr.ag_num,
        1 <= n,
        fmt::addr_local(addr) + n <= hi,
        fmt::addr_local(addr) + n <= tables::block_count(hdr),
        tables::block_count(hdr) <= 0x1_0000_0000,
        tables::same_place(hdr, hdr1),
        allocator_laws::all_state(
            v,
            t,
            hdr,
            fmt::addr_local(addr) as int,
            fmt::addr_local(addr) + n,
            CELL_FREE,
        ),
        allocator_laws::taken(v, t, t1, hdr, fmt::addr_local(addr) as int, hi),
    ensures
        addr <= x < addr + n ==> !spares::kept_safe(v, t, hdr, x) && spares::kept_safe(
            v,
            t1,
            hdr1,
            x,
        ),
        spares::kept_safe(v, t, hdr, x) ==> spares::kept_safe(v, t1, hdr1, x),
{
    let b = fmt::addr_local(addr) as int;
    let l = fmt::addr_local(x) as int;
    if addr <= x < addr + n {
        lemma_run_address(addr, n, x as int);
        assert(tables::block_state(v, t, hdr, l) == Ok::<u8, FsError>(CELL_FREE));
    }
    if fmt::addr_ag(x) == hdr.ag_num && l < tables::block_count(hdr) {
        assert(allocator_laws::taken_at(v, t, t1, hdr, b, hi, l));
        tables::lemma_state_place(v, t1, hdr, hdr1, l);
    }
}

/// The blocks of the run at `addr` were not in use in `t` and are so in `t1`.
pub open spec fn run_used(
    v: Vol,
    t: Map<u64, Seq<u8>>,
    hdr: AgHeader,
    t1: Map<u64, Seq<u8>>,
    hdr1: AgHeader,
    addr: u64,
    n: int,
) -> bool {
    forall|x: u64|
        #![trigger spares::kept_safe(v, t, hdr, x)]
        #![trigger spares::kept_safe(v, t1, hdr1, x)]
        addr <= x < addr + n ==> !spares::kept_safe(v, t, hdr, x) && spares::kept_safe(
            v,
            t1,
            hdr1,
            x,
        )
}

/// What the tables show of a run that was allocated at `addr`, and that nothing in
/// use was written.
#[verifier::opaque]
spec fn run_taken(
    v: Vol,
    t: Map<u64, Seq<u8>>,
    hdr: AgHeader,
    t1: Map<u64, Seq<u8>>,
    hdr1: AgHeader,
    addr: u64,
    n: int,
) -> bool {
    let b = fmt::addr_local(addr) as int;
    let hi = b + allocator_laws::granted(n);
    &&& tables::same_place(hdr, hdr1)
    &&& fmt::addr_ag(addr) == hdr.ag_num
    &&& 1 <= n
    &&& b + n <= hi
    &&& b + n <= tables::block_count(hdr)
    &&& allocator_laws::all_state(v, t, hdr, b, b + n, CELL_FREE)
    &&& allocator_laws::taken(v, t, t1, hdr, b, hi)
    &&& spares::spares(v, t, t1, hdr)
}

/// What an allocation does to the blocks of the volume.
proof fn lemma_run_use(
    v: Vol,
    t: Map<u64, Seq<u8>>,
    hdr: AgHeader,
    t1: Map<u64, Seq<u8>>,
    hdr1: AgHeader,
    addr: u64,
    n: int,
)
    requires
        run_taken(v, t, hdr, t1, hdr1, addr, n),
    ensures
        use_kept(v, t, hdr, t1, hdr1),
        addr + n - 1 <= u64::MAX,
        run_used(v, t, hdr, t1, hdr1, addr, n),
{
    reveal(run_taken);
    let hi = fmt::addr_local(addr) + allocator_laws::granted(n);
    assert(tables::block_count(hdr) <= 0x1_0000_0000) by {
        fmt::lemma_ceil_div(hdr.length as int, 256);
    }
    lemma_run_address(addr, n, addr + n - 1);
    assert forall|x: u64| addr <= x < addr + n implies !spares::kept_safe(v, t, hdr, x)
        && #[trigger] spares::kept_safe(v, t1, hdr1, x) by {
        lemma_run_block(v, t, hdr, t1, hdr1, addr, n, hi, x);
    }
    assert forall|x: u64| spares::kept_safe(v, t, hdr, x) implies #[trigger] spares::kept_safe(
        v,
        t1,
        hdr1,
        x,
    ) by {
        lemma_run_block(v, t, hdr, t1, hdr1, addr, n, hi, x);
    }
}

/// Allocating a run leaves sound tables.
#[verifier::rlimit(60)]
proof fn lemma_run_tables(v: Vol, p: Pool, ag: u32, hdr: AgHeader, n: int) -> (hdr1: AgHeader)
    requires
        settled(v, p.t, ag, hdr),
        1 <= n,
        allocator::allocated(v, p, ag, n).1 is Ok,
    ensures
        ({
            let (p1, r1) = allocator::allocated(v, p, ag, n);
            &&& settled(v, p1.t, ag, hdr1)
            &&& run_taken(v, p.t, hdr, p1.t, hdr1, r1->Ok_0, n)
        }),
{
    let (p1, r1) = allocator::allocated(v, p, ag, n);
    let b = fmt::addr_local(r1->Ok_0) as int;
    let hi = b + allocator_laws::granted(n);
    let h1 = fs::header_of(v, p1.t, ag)->Ok_0;
    assert(b + n <= hi) by {
        allocator_laws::lemma_granted(n);
    }
    assert(fmt::addr_ag(r1->Ok_0) == hdr.ag_num && b + n <= tables::block_count(hdr)
        && allocator_laws::all_state(v, p.t, hdr, b, b + n, CELL_FREE)) by {
        allocator_laws::law_allocated_blocks_were_free(v, p, ag, n);
    }
    assert(settled(v, p1.t, ag, h1) && tables::same_place(hdr, h1) && allocator_laws::taken(
        v,
        p.t,
        p1.t,
        hdr,
        b,
        hi,
    )) by {
        allocator_laws::law_allocation_marks_its_blocks(v, p, ag, hdr, n);
    }
    assert(spares::spares(v, p.t, p1.t, hdr)) by {
        spares::law_allocation_spares_used_blocks(v, p, ag, hdr, n);
    }
    assert(run_taken(v, p.t, hdr, p1.t, h1, r1->Ok_0, n)) by {
        reveal(run_taken);
    }
    h1
}

/// Allocating a run: its blocks were free and are in use.
pub proof fn lemma_run_new(v: Vol, p: Pool, ag: u32, hdr: AgHeader, n: int) -> (hdr1: AgHeader)
    requires
        settled(v, p.t, ag, hdr),
        1 <= n,
        allocator::allocated(v, p, ag, n).1 is Ok,
    ensures
        ({
            let (p1, r1) = allocator::allocated(v, p, ag, n);
            &&& settled(v, p1.t, ag, hdr1)
            &&& use_kept(v, p.t, hdr, p1.t, hdr1)
            &&& r1->Ok_0 + n - 1 <= u64::MAX
            &&& run_used(v, p.t, hdr, p1.t, hdr1, r1->Ok_0, n)
            &&& tables::same_place(hdr, hdr1)
        }),
{
    let (p1, r1) = allocator::allocated(v, p, ag, n);
    let h1 = lemma_run_tables(v, p, ag, hdr, n);
    assert(tables::same_place(hdr, h1)) by {
        reveal(run_taken);
    }
    lemma_run_use(v, p.t, hdr, p1.t, h1, r1->Ok_0, n);
    h1
}

/// The first block of a group is not free.
proof fn lemma_first_block(v: Vol, t: Map<u64, Seq<u8>>, hdr: AgHeader)
    requires
        tables::sound(v, t, hdr),
        allocator::cells_in(hdr) > 0,
    ensures
        tables::block_state(v, t, hdr, 0) != Ok::<u8, FsError>(CELL_FREE),
{
    let h = fs::header_local(hdr.ag_num);
    assert(!tables::off_root(hdr, v.bs, h));
    assert(h as int / 256 == 0);
    assert(roottable::cell_of(v, t, hdr, 0) == Ok::<u8, FsError>(CELL_RSVD));
}

/// A group has no run of more blocks than an extent can count.
#[verifier::rlimit(40)]
#[verifier::spinoff_prover]
pub proof fn lemma_run_short(v: Vol, p: Pool, ag: u32, hdr: AgHeader, n: int)
    requires
        settled(v, p.t, ag, hdr),
        1 <= n,
        allocator::allocated(v, p, ag, n).1 is Ok,
    ensures
        n <= u32::MAX,
{
    let addr = allocator::allocated(v, p, ag, n).1->Ok_0;
    let b = fmt::addr_local(addr) as int;
    assert(b + n <= tables::block_count(hdr) && tables::block_state(v, p.t, hdr, b) == Ok::<
        u8,
        FsError,
    >(CELL_FREE)) by {
        allocator_laws::law_allocated_blocks_were_free(v, p, ag, n);
    }
    assert(tables::block_count(hdr) <= 0x1_0000_0000) by {
        fmt::lemma_ceil_div(hdr.length as int, 256);
    }
    if b == 0 {
        lemma_first_block(v, p.t, hdr);
    }
}

/// Allocating a node: it is new, empty, and in use.
pub proof fn lemma_node_new(v: Vol, p: Pool, ag: u32, hdr: AgHeader, level: u8) -> (hdr1: AgHeader)
    requires
        v.bs >= 2048,
        settled(v, p.t, ag, hdr),
        extent::node_new(v, p, ag, level).1 is Ok,
    ensures
        ({
            let (p1, r1) = extent::node_new(v, p, ag, level);
            let addr = r1->Ok_0;
            &&& settled(v, p1.t, ag, hdr1)
            &&& use_kept(v, p.t, hdr, p1.t, hdr1)
            &&& !spares::kept_safe(v, p.t, hdr, addr)
            &&& spares::kept_safe(v, p1.t, hdr1, addr)
            &&& tables::same_place(hdr, hdr1)
            &&& grants::fine(v, p1.t, hdr1, fmt::addr_local(addr) as int)
            &&& vol::rd(v, p1.t, addr) matches Ok(b) && is_node(
                b,
                v.bs,
                level as int,
                treenode::empty_node(v.bs, level),
            )
        }),
{
    let (p0, r0) = allocator::allocated(v, p, ag, 1);
    let hdr1 = lemma_run_new(v, p, ag, hdr, 1);
    let l = fmt::addr_local(r0->Ok_0) as int;
    assert(grants::fine(v, p0.t, hdr1, l)) by {
        grants::lemma_single_fine(v, p, ag, hdr);
        tables::lemma_same_place(v, p0.t, hdr, hdr1);
    }
    assert(spares::kept_safe(v, p0.t, hdr1, r0->Ok_0));
    lemma_empty_node(v.bs, level);
    lemma_node_to(v, p0.t, ag, hdr1, r0->Ok_0, treenode::empty_node(v.bs, level));
    let t1 = treenode::node_to(p0.t, r0->Ok_0, treenode::empty_node(v.bs, level));
    grants::lemma_fine_kept(v, p0.t, t1, hdr1, l);
    hdr1
}

// --- raising the root ---------------------------------------------------------

/// A node with a child replaced.
pub proof fn lemma_node_with(b: Seq<u8>, i: int, c: Child)
    requires
        b.len() >= 2048,
        0 <= i < 64,
        c.st < 4,
    ensures
        ({
            let b1 = treenode::node_with(b, i, c);
            &&& b1.len() == b.len()
            &&& b1[16] == b[16]
            &&& fmt::has_magic(b1, TREE_MAGIC) == fmt::has_magic(b, TREE_MAGIC)
            &&& forall|j: int|
                0 <= j < 64 ==> #[trigger] treenode::node_at(b1, j) == if j == i {
                    c
                } else {
                    treenode::node_at(b, j)
                }
        }),
{
    let b1 = treenode::node_with(b, i, c);
    assert forall|j: int| 0 <= j < 64 implies #[trigger] treenode::node_at(b1, j) == if j == i {
        c
    } else {
        treenode::node_at(b, j)
    } by {
        treenode::law_child_reads_back(
            b,
            NODE_STATES as int,
            NODE_CHILDREN as int,
            i,
            j,
            c,
            64,
        );
    }
    assert(b1[0] == b[0] && b1[1] == b[1] && b1[2] == b[2] && b1[3] == b[3] && b1[16] == b[16]);
}

/// A state is one of four.
proof fn lemma_state_small(pl: Seq<u8>, i: int)
    ensures
        treenode::root_at(pl, i).st < 4,
{
}

/// The children of a root, copied to a node.
pub proof fn lemma_gathered(b: Seq<u8>, pl: Seq<u8>, i: int)
    requires
        b.len() >= 2048,
        0 <= i,
    ensures
        ({
            let b1 = extent::gathered(b, pl, i);
            &&& b1.len() == b.len()
            &&& b1[16] == b[16]
            &&& fmt::has_magic(b1, TREE_MAGIC) == fmt::has_magic(b, TREE_MAGIC)
            &&& forall|j: int|
                0 <= j < 64 ==> #[trigger] treenode::node_at(b1, j) == if i <= j < ROOT_FANOUT
                    && treenode::root_at(pl, j).st != CELL_FREE {
                    treenode::root_at(pl, j)
                } else {
                    treenode::node_at(b, j)
                }
        }),
    decreases ROOT_FANOUT - i,
{
    reveal(extent::gathered);
    if i < ROOT_FANOUT {
        let c = treenode::root_at(pl, i);
        if c.st == CELL_FREE {
            lemma_gathered(b, pl, i + 1);
        } else {
            lemma_state_small(pl, i);
            lemma_node_with(b, i, c);
            lemma_gathered(treenode::node_with(b, i, c), pl, i + 1);
        }
    }
}

/// A root without children.
pub proof fn lemma_empty_root(level: u8)
    ensures
        treenode::empty_root(level).len() == 128,
        treenode::empty_root(level)[0] == level,
        forall|i: int|
            0 <= i < ROOT_FANOUT ==> (#[trigger] treenode::root_at(
                treenode::empty_root(level),
                i,
            )).st == CELL_FREE,
{
    let p = treenode::empty_root(level);
    assert forall|i: int| 0 <= i < ROOT_FANOUT implies (#[trigger] treenode::root_at(p, i)).st
        == CELL_FREE by {
        assert(p[ROOT_STATES + i / 4] == 0);
    }
}

/// A root with a child replaced.
pub proof fn lemma_root_with(pl: Seq<u8>, i: int, c: Child)
    requires
        pl.len() == 128,
        0 <= i < ROOT_FANOUT,
        c.st < 4,
    ensures
        ({
            let q = treenode::root_with(pl, i, c);
            &&& q.len() == 128
            &&& q[0] == pl[0]
            &&& forall|j: int|
                0 <= j < ROOT_FANOUT ==> #[trigger] treenode::root_at(q, j) == if j == i {
                    c
                } else {
                    treenode::root_at(pl, j)
                }
        }),
{
    let q = treenode::root_with(pl, i, c);
    assert forall|j: int| 0 <= j < ROOT_FANOUT implies #[trigger] treenode::root_at(q, j) == if j
        == i {
        c
    } else {
        treenode::root_at(pl, j)
    } by {
        treenode::law_child_reads_back(
            pl,
            ROOT_STATES as int,
            ROOT_CHILDREN as int,
            i,
            j,
            c,
            ROOT_FANOUT as int,
        );
    }
}

/// What a raised root maps: what the root mapped.
proof fn lemma_raised_map(
    v: Vol,
    t: Map<u64, Seq<u8>>,
    t1: Map<u64, Seq<u8>>,
    hdr: AgHeader,
    hdr1: AgHeader,
    pl: Seq<u8>,
    pl1: Seq<u8>,
    node: u64,
    b: Seq<u8>,
    f: int,
)
    requires
        use_kept(v, t, hdr, t1, hdr1),
        tree_safe(v, t, hdr, pl),
        pl[0] < MAX_LEVEL,
        pl1[0] == pl[0] + 1,
        treenode::root_at(pl1, 0) == (Child { st: CELL_REFINED, blocks: 0, addr: node }),
        forall|i: int|
            1 <= i < ROOT_FANOUT ==> (#[trigger] treenode::root_at(pl1, i)).st == CELL_FREE,
        treenode::node_level_of(v, t1, node, pl[0] as int) == Ok::<Seq<u8>, FsError>(b),
        forall|j: int|
            0 <= j < 64 ==> if j < ROOT_FANOUT && treenode::root_at(pl, j).st != CELL_FREE {
                #[trigger] treenode::node_at(b, j) == treenode::root_at(pl, j)
            } else {
                treenode::node_at(b, j).st == CELL_FREE
            },
        0 <= f,
    ensures
        address(mapping::tree_map(v, t1, pl1, f)) == address(mapping::tree_map(v, t, pl, f)),
{
    let level = pl[0] as int;
    let c = treenode::cover(level);
    let big = treenode::cover(level + 1);
    treenode::lemma_cover_monotonic(level, level + 1);
    assert(big == 64 * c);
    let i = f / c;
    if f < big {
        lemma_part(f, c);
        assert(f / big == 0 && f % big == f) by (nonlinear_arith)
            requires
                0 <= f < big,
        ;
        let k = treenode::node_at(b, i);
        assert(mapping::tree_map(v, t1, pl1, f) == mapping::child_map(
            v,
            t1,
            treenode::root_at(pl1, 0),
            f,
            level + 1,
        ));
        assert(mapping::tree_map(v, t1, pl1, f) == mapping::child_map(v, t1, k, f % c, level));
        if i < ROOT_FANOUT && treenode::root_at(pl, i).st != CELL_FREE {
            lemma_child_kept(v, t, hdr, t1, hdr1, k, level, f % c);
        }
    } else {
        assert(f / big >= 1 && i >= 64) by (nonlinear_arith)
            requires
                f >= big,
                big == 64 * c,
                c >= 1,
                i == f / c,
        ;
        if f / big < ROOT_FANOUT {
            assert(treenode::root_at(pl1, f / big).st == CELL_FREE);
        }
    }
}

/// The node that a raised root names: new, in use, and holding the children of
/// the root.
#[verifier::rlimit(40)]
pub proof fn lemma_raised_parts(v: Vol, p: Pool, ag: u32, hdr: AgHeader, pl: Seq<u8>) -> (r: (
    AgHeader,
    u64,
    Seq<u8>,
))
    requires
        v.bs >= 2048,
        settled(v, p.t, ag, hdr),
        pl.len() == 128,
        pl[0] < MAX_LEVEL,
        extent::root_any(pl),
        extent::root_grown(v, p, ag, pl).2 is Ok,
    ensures
        ({
            let (p1, pl1, _) = extent::root_grown(v, p, ag, pl);
            let (hdr1, node, b) = r;
            &&& settled(v, p1.t, ag, hdr1)
            &&& use_kept(v, p.t, hdr, p1.t, hdr1)
            &&& !spares::kept_safe(v, p.t, hdr, node)
            &&& spares::kept_safe(v, p1.t, hdr1, node)
            &&& treenode::node_level_of(v, p1.t, node, pl[0] as int) == Ok::<Seq<u8>, FsError>(b)
            &&& b.len() == v.bs
            &&& pl1.len() == 128
            &&& pl1[0] == pl[0] + 1
            &&& treenode::root_at(pl1, 0) == (Child { st: CELL_REFINED, blocks: 0, addr: node })
            &&& forall|i: int|
                1 <= i < ROOT_FANOUT ==> (#[trigger] treenode::root_at(pl1, i)).st == CELL_FREE
            &&& forall|j: int|
                0 <= j < 64 ==> if j < ROOT_FANOUT && treenode::root_at(pl, j).st != CELL_FREE {
                    #[trigger] treenode::node_at(r.2, j) == treenode::root_at(pl, j)
                } else {
                    treenode::node_at(r.2, j).st == CELL_FREE
                }
        }),
{
    reveal(extent::root_grown);
    let level = pl[0];
    let (p1, r1) = extent::node_new(v, p, ag, level);
    let node = r1->Ok_0;
    let hdr1 = lemma_node_new(v, p, ag, hdr, level);
    let b = treenode::node_of(v, p1.t, node)->Ok_0;
    let g = extent::gathered(b, pl, 0);
    lemma_empty_node(v.bs, level);
    lemma_gathered(b, pl, 0);
    lemma_node_to(v, p1.t, ag, hdr1, node, g);
    let (p2, pl2, _) = extent::root_grown(v, p, ag, pl);
    let t2 = treenode::node_to(p1.t, node, g);
    assert(p2.t == t2);
    let img = vol::rd(v, t2, node)->Ok_0;
    lemma_empty_root((level + 1) as u8);
    let ch = Child { st: CELL_REFINED, blocks: 0, addr: node };
    lemma_root_with(treenode::empty_root((level + 1) as u8), 0, ch);
    assert(use_kept(v, p.t, hdr, t2, hdr1));
    assert(treenode::node_level_of(v, t2, node, level as int) == Ok::<Seq<u8>, FsError>(img));
    assert forall|j: int| 0 <= j < 64 implies if j < ROOT_FANOUT && treenode::root_at(pl, j).st
        != CELL_FREE {
        #[trigger] treenode::node_at(img, j) == treenode::root_at(pl, j)
    } else {
        treenode::node_at(img, j).st == CELL_FREE
    } by {
        assert(treenode::node_at(img, j) == treenode::node_at(g, j));
        assert(treenode::node_at(b, j) == treenode::node_at(
            treenode::empty_node(v.bs, level),
            j,
        ));
    }
    (hdr1, node, img)
}

/// Raising a root that maps something.
#[verifier::rlimit(40)]
proof fn lemma_raised(
    v: Vol,
    p: Pool,
    ag: u32,
    hdr: AgHeader,
    pl: Seq<u8>,
) -> (hdr1: AgHeader)
    requires
        v.bs >= 2048,
        settled(v, p.t, ag, hdr),
        pl.len() == 128,
        pl[0] < MAX_LEVEL,
        tree_safe(v, p.t, hdr, pl),
        extent::root_any(pl),
        extent::root_grown(v, p, ag, pl).2 is Ok,
    ensures
        ({
            let (p1, pl1, _) = extent::root_grown(v, p, ag, pl);
            &&& settled(v, p1.t, ag, hdr1)
            &&& use_kept(v, p.t, hdr, p1.t, hdr1)
            &&& pl1.len() == 128
            &&& pl1[0] == pl[0] + 1
            &&& tree_safe(v, p1.t, hdr1, pl1)
            &&& forall|f: int|
                0 <= f ==> address(#[trigger] mapping::tree_map(v, p1.t, pl1, f)) == address(
                    mapping::tree_map(v, p.t, pl, f),
                )
        }),
{
    let level = pl[0];
    let (hdr1, node, img) = lemma_raised_parts(v, p, ag, hdr, pl);
    let (p2, pl2, _) = extent::root_grown(v, p, ag, pl);
    let t2 = p2.t;
    assert(tree_safe(v, t2, hdr1, pl2)) by {
        assert forall|i: int| 0 <= i < ROOT_FANOUT implies nodes_safe(
            v,
            t2,
            hdr1,
            #[trigger] treenode::root_at(pl2, i),
            pl2[0] as int,
        ) by {
            if i == 0 {
                assert forall|j: int| 0 <= j < 64 implies nodes_safe(
                    v,
                    t2,
                    hdr1,
                    #[trigger] treenode::node_at(
                        treenode::node_level_of(v, t2, node, level as int)->Ok_0,
                        j,
                    ),
                    level as int,
                ) by {
                    let k = treenode::node_at(img, j);
                    if k.st == CELL_REFINED {
                        assert(nodes_safe(v, p.t, hdr, treenode::root_at(pl, j), level as int));
                        lemma_nodes_kept(v, p.t, hdr, t2, hdr1, k, level as int);
                    }
                }
            }
        }
    }
    assert forall|f: int| 0 <= f implies address(#[trigger] mapping::tree_map(v, t2, pl2, f))
        == address(mapping::tree_map(v, p.t, pl, f)) by {
        lemma_raised_map(v, p.t, t2, hdr, hdr1, pl, pl2, node, img, f);
    }
    hdr1
}

/// A root without children maps nothing.
pub proof fn lemma_vacant(v: Vol, t: Map<u64, Seq<u8>>, pl: Seq<u8>, f: int)
    requires
        !extent::root_any(pl),
        treenode::cover(pl[0] as int) >= 1,
        0 <= f,
    ensures
        address(mapping::tree_map(v, t, pl, f)) is None,
{
    let c = treenode::cover(pl[0] as int);
    assert(f / c >= 0) by (nonlinear_arith)
        requires
            f >= 0,
            c >= 1,
    ;
    if f / c < ROOT_FANOUT {
        assert(treenode::root_at(pl, f / c).st == CELL_FREE);
    }
}

/// Raising the root of a tree by a level keeps what the file maps.
pub proof fn law_raising_the_root_keeps_the_file(
    v: Vol,
    p: Pool,
    ag: u32,
    hdr: AgHeader,
    pl: Seq<u8>,
) -> (hdr1: AgHeader)
    requires
        v.bs >= 2048,
        settled(v, p.t, ag, hdr),
        pl.len() == 128,
        pl[0] < MAX_LEVEL,
        tree_safe(v, p.t, hdr, pl),
        extent::root_grown(v, p, ag, pl).2 is Ok,
    ensures
        ({
            let (p1, pl1, _) = extent::root_grown(v, p, ag, pl);
            &&& extent::root_any(pl) ==> settled(v, p1.t, ag, hdr1) && use_kept(
                v,
                p.t,
                hdr,
                p1.t,
                hdr1,
            )
            &&& pl1.len() == 128
            &&& pl1[0] == pl[0] + 1
            &&& tree_safe(v, p1.t, hdr1, pl1)
            &&& forall|f: int|
                0 <= f ==> address(#[trigger] mapping::tree_map(v, p1.t, pl1, f)) == address(
                    mapping::tree_map(v, p.t, pl, f),
                )
        }),
{
    lemma_empty_root((pl[0] + 1) as u8);
    if extent::root_any(pl) {
        lemma_raised(v, p, ag, hdr, pl)
    } else {
        reveal(extent::root_grown);
        let (p1, pl1, _) = extent::root_grown(v, p, ag, pl);
        assert forall|f: int| 0 <= f implies address(
            #[trigger] mapping::tree_map(v, p1.t, pl1, f),
        ) == address(mapping::tree_map(v, p.t, pl, f)) by {
            treenode::lemma_cover_monotonic(pl[0] as int, pl[0] as int);
            treenode::lemma_cover_monotonic(pl1[0] as int, pl1[0] as int);
            lemma_vacant(v, p.t, pl, f);
            lemma_vacant(v, p1.t, pl1, f);
        }
        hdr
    }
}

// --- refining a child ---------------------------------------------------------

/// Child `j` of a node over which a run of `blocks` blocks at `addr` is spread,
/// each child covering `c` blocks.
pub open spec fn piece(c: int, blocks: int, addr: u64, j: int) -> Child {
    Child {
        st: CELL_FULL,
        blocks: (if c < blocks - j * c {
            c
        } else {
            blocks - j * c
        }) as u32,
        addr: (addr + j * c) as u64,
    }
}

/// A run spread over the children of a node, from child `i` on.
proof fn lemma_spread(b: Seq<u8>, c: int, blocks: int, addr: u64, done: int, i: int)
    requires
        b.len() >= 2048,
        1 <= c,
        0 <= blocks <= u32::MAX,
        0 <= i,
        done == if i * c < blocks {
            i * c
        } else {
            blocks
        },
        extent::spread(b, c, blocks, addr, done, i) is Some,
    ensures
        ({
            let b1 = extent::spread(b, c, blocks, addr, done, i)->Some_0;
            &&& b1.len() == b.len()
            &&& b1[16] == b[16]
            &&& fmt::has_magic(b1, TREE_MAGIC) == fmt::has_magic(b, TREE_MAGIC)
            &&& forall|j: int|
                0 <= j < 64 ==> #[trigger] treenode::node_at(b1, j) == if i <= j && j * c
                    < blocks {
                    piece(c, blocks, addr, j)
                } else {
                    treenode::node_at(b, j)
                }
            &&& forall|j: int|
                i <= j < 64 && j * c < blocks ==> addr + #[trigger] (j * c) <= u64::MAX
        }),
    decreases blocks - done,
{
    if done < blocks {
        let take = if c < blocks - done {
            c
        } else {
            blocks - done
        };
        let ch = Child { st: CELL_FULL, blocks: take as u32, addr: (addr + done) as u64 };
        assert((i + 1) * c == i * c + c) by (nonlinear_arith);
        lemma_node_with(b, i, ch);
        lemma_spread(treenode::node_with(b, i, ch), c, blocks, addr, done + take, i + 1);
    } else {
        assert forall|j: int| i <= j implies #[trigger] (j * c) >= blocks by {
            assert(j * c >= i * c) by (nonlinear_arith)
                requires
                    j >= i,
                    c >= 1,
            ;
        }
    }
}

/// What a node holds that replaces child `ch`: the pieces of its run.
pub open spec fn replaces(b: Seq<u8>, ch: Child, c: int) -> bool {
    forall|j: int|
        0 <= j < 64 ==> if ch.st == CELL_FULL && j * c < ch.blocks {
            #[trigger] treenode::node_at(b, j) == piece(c, ch.blocks as int, ch.addr, j) && ch.addr
                + j * c <= u64::MAX
        } else {
            treenode::node_at(b, j).st == CELL_FREE
        }
}

/// A node that replaces a child maps what the child mapped.
pub proof fn lemma_replaced_map(
    v: Vol,
    t: Map<u64, Seq<u8>>,
    t1: Map<u64, Seq<u8>>,
    ch: Child,
    node: u64,
    b: Seq<u8>,
    level: int,
    rel: int,
)
    requires
        level > 0,
        ch.st == CELL_FREE || ch.st == CELL_FULL,
        treenode::node_level_of(v, t1, node, level - 1) == Ok::<Seq<u8>, FsError>(b),
        replaces(b, ch, treenode::cover(level - 1)),
        0 <= rel < treenode::cover(level),
    ensures
        address(
            mapping::child_map(
                v,
                t1,
                Child { st: CELL_REFINED, blocks: 0, addr: node },
                rel,
                level,
            ),
        ) == address(mapping::child_map(v, t, ch, rel, level)),
{
    let c = treenode::cover(level - 1);
    treenode::lemma_cover_monotonic(level - 1, level - 1);
    lemma_part(rel, c);
    let j = rel / c;
    assert(c * j == j * c) by (nonlinear_arith);
    let k = treenode::node_at(b, j);
    assert(mapping::child_map(
        v,
        t1,
        Child { st: CELL_REFINED, blocks: 0, addr: node },
        rel,
        level,
    ) == mapping::child_map(v, t1, k, rel % c, level - 1));
    if ch.st == CELL_FULL && j * c < ch.blocks {
        assert(k == piece(c, ch.blocks as int, ch.addr, j));
    }
}

/// The node that takes the place of a child: new, in use, and holding the pieces
/// of the child's run.
#[verifier::rlimit(40)]
pub proof fn lemma_replacement(
    v: Vol,
    p: Pool,
    ag: u32,
    hdr: AgHeader,
    level: int,
    ch: Child,
) -> (r: (AgHeader, Seq<u8>))
    requires
        v.bs >= 2048,
        settled(v, p.t, ag, hdr),
        0 < level <= MAX_LEVEL,
        ch.st == CELL_FREE || ch.st == CELL_FULL,
        extent::node_new(v, p, ag, (level - 1) as u8).1 is Ok,
        ch.st == CELL_FULL ==> extent::spread_over(
            v,
            extent::node_new(v, p, ag, (level - 1) as u8).0.t,
            extent::node_new(v, p, ag, (level - 1) as u8).1->Ok_0,
            level - 1,
            ch.blocks as int,
            ch.addr,
        ).1 is Ok,
    ensures
        ({
            let (p1, r1) = extent::node_new(v, p, ag, (level - 1) as u8);
            let node = r1->Ok_0;
            let t2 = if ch.st == CELL_FULL {
                extent::spread_over(v, p1.t, node, level - 1, ch.blocks as int, ch.addr).0
            } else {
                p1.t
            };
            &&& settled(v, t2, ag, r.0)
            &&& use_kept(v, p.t, hdr, t2, r.0)
            &&& spares::kept_safe(v, t2, r.0, node)
            &&& !spares::kept_safe(v, p.t, hdr, node)
            &&& treenode::node_level_of(v, t2, node, level - 1) == Ok::<Seq<u8>, FsError>(r.1)
            &&& r.1.len() == v.bs
            &&& replaces(r.1, ch, treenode::cover(level - 1))
        }),
{
    reveal(extent::spread_over);
    let low = (level - 1) as u8;
    let c = treenode::cover(level - 1);
    treenode::lemma_cover_monotonic(level - 1, level - 1);
    let (p1, r1) = extent::node_new(v, p, ag, low);
    let node = r1->Ok_0;
    let hdr1 = lemma_node_new(v, p, ag, hdr, low);
    let b = vol::rd(v, p1.t, node)->Ok_0;
    lemma_empty_node(v.bs, low);
    assert(forall|j: int| 0 <= j < 64 ==> (#[trigger] treenode::node_at(b, j)).st == CELL_FREE);
    if ch.st == CELL_FULL {
        lemma_spread(b, c, ch.blocks as int, ch.addr, 0, 0);
        let b2 = extent::spread(b, c, ch.blocks as int, ch.addr, 0, 0)->Some_0;
        lemma_node_to(v, p1.t, ag, hdr1, node, b2);
        let t2 = treenode::node_to(p1.t, node, b2);
        let img = vol::rd(v, t2, node)->Ok_0;
        assert(replaces(img, ch, c)) by {
            assert(forall|j: int|
                0 <= j < 64 ==> #[trigger] treenode::node_at(img, j) == treenode::node_at(b2, j));
        }
        (hdr1, img)
    } else {
        (hdr1, b)
    }
}

/// Replacing a hole or a run in the root of a tree by a node one level down keeps
/// what the file maps.
#[verifier::rlimit(40)]
pub proof fn law_refining_keeps_the_file(
    v: Vol,
    p: Pool,
    ag: u32,
    hdr: AgHeader,
    pl: Seq<u8>,
    i: int,
) -> (hdr1: AgHeader)
    requires
        v.bs >= 2048,
        settled(v, p.t, ag, hdr),
        pl.len() == 128,
        0 < pl[0] <= MAX_LEVEL,
        0 <= i < ROOT_FANOUT,
        treenode::root_at(pl, i).st == CELL_FREE || treenode::root_at(pl, i).st == CELL_FULL,
        tree_safe(v, p.t, hdr, pl),
        extent::refined(
            v,
            p,
            ag,
            Par::Root(pl),
            i,
            pl[0] as int,
            treenode::root_at(pl, i),
        ).2 is Ok,
    ensures
        ({
            let (p1, par1, _) = extent::refined(
                v,
                p,
                ag,
                Par::Root(pl),
                i,
                pl[0] as int,
                treenode::root_at(pl, i),
            );
            let pl1 = par1->Root_0;
            &&& par1 is Root
            &&& settled(v, p1.t, ag, hdr1)
            &&& use_kept(v, p.t, hdr, p1.t, hdr1)
            &&& pl1.len() == 128
            &&& pl1[0] == pl[0]
            &&& treenode::root_at(pl1, i).st == CELL_REFINED
            &&& tree_safe(v, p1.t, hdr1, pl1)
            &&& forall|f: int|
                0 <= f ==> address(#[trigger] mapping::tree_map(v, p1.t, par1->Root_0, f))
                    == address(mapping::tree_map(v, p.t, pl, f))
        }),
{
    reveal(extent::refined);
    let level = pl[0] as int;
    let ch = treenode::root_at(pl, i);
    let node = extent::node_new(v, p, ag, (level - 1) as u8).1->Ok_0;
    let (hdr1, b) = lemma_replacement(v, p, ag, hdr, level, ch);
    let new = Child { st: CELL_REFINED, blocks: 0, addr: node };
    lemma_root_with(pl, i, new);
    let (p1, par1, _) = extent::refined(v, p, ag, Par::Root(pl), i, level, ch);
    let t1 = p1.t;
    let pl1 = treenode::root_with(pl, i, new);
    let c = treenode::cover(level);
    treenode::lemma_cover_monotonic(level, level);
    assert(tree_safe(v, t1, hdr1, pl1)) by {
        assert forall|k: int| 0 <= k < ROOT_FANOUT implies nodes_safe(
            v,
            t1,
            hdr1,
            #[trigger] treenode::root_at(pl1, k),
            pl1[0] as int,
        ) by {
            if k != i {
                assert(nodes_safe(v, p.t, hdr, treenode::root_at(pl, k), level));
                lemma_nodes_kept(v, p.t, hdr, t1, hdr1, treenode::root_at(pl, k), level);
            } else {
                assert forall|j: int| 0 <= j < 64 implies nodes_safe(
                    v,
                    t1,
                    hdr1,
                    #[trigger] treenode::node_at(
                        treenode::node_level_of(v, t1, node, level - 1)->Ok_0,
                        j,
                    ),
                    level - 1,
                ) by {
                    assert(treenode::node_at(b, j).st != CELL_REFINED);
                }
            }
        }
    }
    assert forall|f: int| 0 <= f implies address(#[trigger] mapping::tree_map(v, t1, pl1, f))
        == address(mapping::tree_map(v, p.t, pl, f)) by {
        let k = f / c;
        assert(0 <= k && 0 <= f % c < c) by (nonlinear_arith)
            requires
                f >= 0,
                c >= 1,
                k == f / c,
        ;
        if k < ROOT_FANOUT {
            if k == i {
                lemma_replaced_map(v, p.t, t1, ch, node, b, level, f % c);
            } else {
                assert(nodes_safe(v, p.t, hdr, treenode::root_at(pl, k), level));
                lemma_child_kept(v, p.t, hdr, t1, hdr1, treenode::root_at(pl, k), level, f % c);
            }
        }
    }
    hdr1
}

// --- filling a hole -----------------------------------------------------------

/// Growing into a hole of the root of a tree, from the start of the child's range
/// and with a run of the length asked for at hand, maps the whole range, to blocks
/// that were free, and keeps what the file mapped.
#[verifier::rlimit(40)]
pub proof fn law_filling_a_hole_keeps_the_file(
    v: Vol,
    w: Work,
    ag: u32,
    hdr: AgHeader,
    pl: Seq<u8>,
    i: int,
    n: int,
) -> (hdr1: AgHeader)
    requires
        settled(v, w.p.t, ag, hdr),
        pl.len() == 128,
        pl[0] <= MAX_LEVEL,
        0 <= i < ROOT_FANOUT,
        treenode::root_at(pl, i).st == CELL_FREE,
        tree_safe(v, w.p.t, hdr, pl),
        1 <= n <= treenode::cover(pl[0] as int),
        n <= u32::MAX,
        allocator::allocated(v, w.p, ag, n).1 is Ok,
    ensures
        ({
            let cs = i * treenode::cover(pl[0] as int);
            let (w1, par1, r1) = extent::child_fit(
                v,
                w,
                ag,
                Par::Root(pl),
                i,
                pl[0] as int,
                cs,
                cs,
                cs + n,
            );
            &&& r1 is Ok
            &&& par1 is Root
            &&& settled(v, w1.p.t, ag, hdr1)
            &&& use_kept(v, w.p.t, hdr, w1.p.t, hdr1)
            &&& w1.fresh == w.fresh.push((cs as u64, n as u64))
            &&& tree_safe(v, w1.p.t, hdr1, par1->Root_0)
            &&& forall|f: int|
                0 <= f ==> {
                    let a = address(mapping::tree_map(v, w.p.t, pl, f));
                    let a1 = address(#[trigger] mapping::tree_map(v, w1.p.t, par1->Root_0, f));
                    if cs <= f < cs + n {
                        a is None && a1 is Some && !spares::kept_safe(v, w.p.t, hdr, a1->Some_0)
                            && spares::kept_safe(v, w1.p.t, hdr1, a1->Some_0)
                    } else {
                        a1 == a
                    }
                }
        }),
{
    let level = pl[0] as int;
    let c = treenode::cover(level);
    let cs = i * c;
    let (p1, r1) = allocator::allocated(v, w.p, ag, n);
    let hdr1 = lemma_run_new(v, w.p, ag, hdr, n);
    let blk = r1->Ok_0;
    let new = Child { st: CELL_FULL, blocks: n as u32, addr: blk };
    lemma_root_with(pl, i, new);
    treenode::lemma_cover_monotonic(level, level);
    let pl1 = treenode::root_with(pl, i, new);
    let t1 = p1.t;
    assert((cs + n) - cs == n);
    assert(tree_safe(v, t1, hdr1, pl1)) by {
        assert forall|k: int| 0 <= k < ROOT_FANOUT implies nodes_safe(
            v,
            t1,
            hdr1,
            #[trigger] treenode::root_at(pl1, k),
            pl1[0] as int,
        ) by {
            if k != i {
                assert(nodes_safe(v, w.p.t, hdr, treenode::root_at(pl, k), level));
                lemma_nodes_kept(v, w.p.t, hdr, t1, hdr1, treenode::root_at(pl, k), level);
            }
        }
    }
    assert forall|f: int| 0 <= f implies {
        let a = address(mapping::tree_map(v, w.p.t, pl, f));
        let a1 = address(#[trigger] mapping::tree_map(v, t1, pl1, f));
        if cs <= f < cs + n {
            a is None && a1 is Some && !spares::kept_safe(v, w.p.t, hdr, a1->Some_0)
                && spares::kept_safe(v, t1, hdr1, a1->Some_0)
        } else {
            a1 == a
        }
    } by {
        lemma_place(f, c, i);
        let k = f / c;
        if k < ROOT_FANOUT && k != i {
            assert(nodes_safe(v, w.p.t, hdr, treenode::root_at(pl, k), level));
            lemma_child_kept(v, w.p.t, hdr, t1, hdr1, treenode::root_at(pl, k), level, f % c);
        }
        if cs <= f < cs + n {
            assert(spares::kept_safe(v, t1, hdr1, (blk + (f - cs)) as u64));
        }
    }
    hdr1
}

/// Which child a file block is in.
pub proof fn lemma_place(f: int, c: int, i: int)
    requires
        0 <= f,
        1 <= c,
    ensures
        0 <= f / c,
        0 <= f % c < c,
        (f / c == i) == (i * c <= f < i * c + c),
        f / c == i ==> f % c == f - i * c,
{
    vstd::arithmetic::div_mod::lemma_fundamental_div_mod(f, c);
    let k = f / c;
    let r = f % c;
    assert(0 <= k && 0 <= r < c) by (nonlinear_arith)
        requires
            f >= 0,
            c >= 1,
            k == f / c,
            r == f % c,
    ;
    assert((k == i) == (i * c <= f < i * c + c)) by (nonlinear_arith)
        requires
            f == c * k + r,
            0 <= r < c,
    ;
    assert(k == i ==> r == f - i * c) by (nonlinear_arith)
        requires
            f == c * k + r,
    ;
}

} // verus!
