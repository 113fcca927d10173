//! File data mapping: inline extents and extent refinement trees.
//!
//! The root of a tree lives in the inode payload: 6 children, each covering
//! 64^level blocks. Node blocks ("5FST") have 64 children. A child is free (a
//! hole), full (a contiguous run, the rest of its range being a hole), or
//! refined (a node one level down). Node blocks need a block size of 2048 or
//! more.

pub use crate::mapping::Mapping;
pub use crate::treenode::{
    cov, node_child, node_level, node_state, root_child, root_level, root_state,
};
use crate::allocator::Pool;
use crate::error::FsError;
use crate::fmt::{
    CELL_FREE, CELL_FULL, CELL_REFINED, FMT_EXTENT, FMT_TREE, MAX_INLINE_EXTENTS, ROOT_FANOUT,
};
use crate::fs::Gofs;
use crate::inode::{extents_parse, extents_store, Extent, Inode};
use crate::mapping::Mp;
use crate::treenode::{
    node_get, node_set, root_get, root_init, root_set, Child, MAX_LEVEL, TREE_LIMIT,
};
use crate::txn::Txn;
use crate::vol::Vol;
use vstd::prelude::*;

use crate::allocator;
use crate::fmt;
use crate::inode;
use crate::mapping;
use crate::treenode;

verus! {

/// Where a child record is kept: in the root or in a node block.
#[verifier::ext_equal]
pub enum Par {
    Root(Seq<u8>),
    Node(u64),
}

pub open spec fn par_get(v: Vol, t: Map<u64, Seq<u8>>, par: Par, i: int) -> Result<Child, FsError> {
    match par {
        Par::Root(p) => Ok(treenode::root_at(p, i)),
        Par::Node(a) => match treenode::node_of(v, t, a) {
            Err(e) => Err(e),
            Ok(b) => Ok(treenode::node_at(b, i)),
        },
    }
}

pub open spec fn par_set(v: Vol, t: Map<u64, Seq<u8>>, par: Par, i: int, c: Child) -> (
    Map<u64, Seq<u8>>,
    Par,
    Result<(), FsError>,
) {
    match par {
        Par::Root(p) => (t, Par::Root(treenode::root_with(p, i, c)), Ok(())),
        Par::Node(a) => match treenode::node_of(v, t, a) {
            Err(e) => (t, par, Err(e)),
            Ok(b) => (treenode::node_to(t, a, treenode::node_with(b, i, c)), par, Ok(())),
        },
    }
}

/// Allocating a node whose children are of level `level`.
pub open spec fn node_new(v: Vol, p: Pool, ag: u32, level: u8) -> (Pool, Result<u64, FsError>) {
    let (p1, r) = allocator::allocated(v, p, ag, 1);
    match r {
        Err(e) => (p1, Err(e)),
        Ok(addr) => (
            Pool {
                t: treenode::node_to(p1.t, addr, treenode::empty_node(v.bs, level)),
                ..p1
            },
            Ok(addr),
        ),
    }
}

/// Spreading a run over the children of a node, from child `i` and block
/// `done` on. `None` if it does not fit.
pub open spec fn spread(b: Seq<u8>, c: int, blocks: int, addr: u64, done: int, i: int) -> Option<
    Seq<u8>,
>
    decreases blocks - done,
{
    let take = if c < blocks - done {
        c
    } else {
        blocks - done
    };
    if done >= blocks {
        Some(b)
    } else if i >= 64 || addr + done > u64::MAX || take <= 0 {
        None
    } else {
        spread(
            treenode::node_with(
                b,
                i,
                Child { st: CELL_FULL, blocks: take as u32, addr: (addr + done) as u64 },
            ),
            c,
            blocks,
            addr,
            done + take,
            i + 1,
        )
    }
}

/// Spreading the run that a child mapped over the new node that replaces it.
#[verifier::opaque]
pub open spec fn spread_over(
    v: Vol,
    t: Map<u64, Seq<u8>>,
    node: u64,
    level: int,
    blocks: int,
    addr: u64,
) -> (Map<u64, Seq<u8>>, Result<(), FsError>) {
    match treenode::node_level_of(v, t, node, level) {
        Err(e) => (t, Err(e)),
        Ok(b) => match spread(b, treenode::cover(level), blocks, addr, 0, 0) {
            None => (t, Err(FsError::Corrupt)),
            Some(b2) => (treenode::node_to(t, node, b2), Ok(())),
        },
    }
}

/// Replacing a hole or run by a node one level down, the run spread over it.
#[verifier::opaque]
pub open spec fn refined(v: Vol, p: Pool, ag: u32, par: Par, i: int, level: int, ch: Child) -> (
    Pool,
    Par,
    Result<u64, FsError>,
) {
    let (p1, r1) = node_new(v, p, ag, (level - 1) as u8);
    match r1 {
        Err(e) => (p1, par, Err(e)),
        Ok(node) => {
            let (t2, r2) = if ch.st == CELL_FULL {
                spread_over(v, p1.t, node, level - 1, ch.blocks as int, ch.addr)
            } else {
                (p1.t, Ok(()))
            };
            match r2 {
                Err(e) => (Pool { t: t2, ..p1 }, par, Err(e)),
                Ok(_) => {
                    let (t3, par3, r3) = par_set(
                        v,
                        t2,
                        par,
                        i,
                        Child { st: CELL_REFINED, blocks: 0, addr: node },
                    );
                    match r3 {
                        Err(e) => (Pool { t: t3, ..p1 }, par3, Err(e)),
                        Ok(_) => (Pool { t: t3, ..p1 }, par3, Ok(node)),
                    }
                },
            }
        },
    }
}

// --- ensure -------------------------------------------------------------------

/// What ensuring changes: transaction and counters, and the ranges allocated.
#[verifier::ext_equal]
pub struct Work {
    pub p: Pool,
    pub fresh: Seq<(u64, u64)>,
}

/// Ensuring `from` to `to` within child `i` of `par`, of level `level`, whose
/// range starts at file block `cs`.
pub open spec fn child_fit(
    v: Vol,
    w: Work,
    ag: u32,
    par: Par,
    i: int,
    level: int,
    cs: int,
    from: int,
    to: int,
) -> (Work, Par, Result<(), FsError>)
    decreases level, 1int, 0int,
{
    match par_get(v, w.p.t, par, i) {
        Err(e) => (w, par, Err(e)),
        Ok(ch) => if ch.st == CELL_FULL && to - cs <= ch.blocks {
            (w, par, Ok(()))
        } else if ch.st == CELL_FREE && from == cs {
            // a run from the start of the child's range
            let (p1, r1) = allocator::allocated(v, w.p, ag, to - cs);
            match r1 {
                Ok(blk) => {
                    let (t2, par2, r2) = par_set(
                        v,
                        p1.t,
                        par,
                        i,
                        Child { st: CELL_FULL, blocks: (to - cs) as u32, addr: blk },
                    );
                    match r2 {
                        Err(e) => (Work { p: Pool { t: t2, ..p1 }, ..w }, par2, Err(e)),
                        Ok(_) => (
                            Work {
                                p: Pool { t: t2, ..p1 },
                                fresh: w.fresh.push((cs as u64, (to - cs) as u64)),
                            },
                            par2,
                            Ok(()),
                        ),
                    }
                },
                Err(e) => if level <= 0 {
                    (Work { p: p1, ..w }, par, Err(e))
                } else {
                    // fragmented: let smaller children try
                    let (p2, par2, r2) = refined(v, p1, ag, par, i, level, ch);
                    match r2 {
                        Err(e) => (Work { p: p2, ..w }, par2, Err(e)),
                        Ok(node) => {
                            let (w3, r3) = node_fit(
                                v,
                                Work { p: p2, ..w },
                                ag,
                                node,
                                level - 1,
                                cs,
                                from,
                                to,
                            );
                            (w3, par2, r3)
                        },
                    }
                },
            }
        } else if ch.st == CELL_FREE || ch.st == CELL_FULL {
            if level <= 0 {
                (w, par, Err(FsError::LevelZero))
            } else {
                let (p2, par2, r2) = refined(v, w.p, ag, par, i, level, ch);
                match r2 {
                    Err(e) => (Work { p: p2, ..w }, par2, Err(e)),
                    Ok(node) => {
                        let (w3, r3) = node_fit(
                            v,
                            Work { p: p2, ..w },
                            ag,
                            node,
                            level - 1,
                            cs,
                            from,
                            to,
                        );
                        (w3, par2, r3)
                    },
                }
            }
        } else if ch.st != CELL_REFINED {
            (w, par, Err(FsError::ChildState(ch.st)))
        } else if level <= 0 {
            (w, par, Err(FsError::Corrupt))
        } else {
            let (w3, r3) = node_fit(v, w, ag, ch.addr, level - 1, cs, from, to);
            (w3, par, r3)
        },
    }
}

/// Ensuring `from` to `to` within the node at `node`, whose children are of
/// level `level` and whose range starts at file block `ns`.
pub open spec fn node_fit(
    v: Vol,
    w: Work,
    ag: u32,
    node: u64,
    level: int,
    ns: int,
    from: int,
    to: int,
) -> (Work, Result<(), FsError>)
    decreases level, 3int, 0int,
{
    match treenode::node_level_of(v, w.p.t, node, level) {
        Err(e) => (w, Err(e)),
        Ok(_) => node_fit_from(v, w, ag, node, level, ns, from, to),
    }
}

pub open spec fn node_fit_from(
    v: Vol,
    w: Work,
    ag: u32,
    node: u64,
    level: int,
    ns: int,
    pos: int,
    to: int,
) -> (Work, Result<(), FsError>)
    decreases level, 2int, to - pos,
{
    let c = treenode::cover(level);
    let i = (pos - ns) / c;
    let cs = ns + i * c;
    let end = if to < cs + c {
        to
    } else {
        cs + c
    };
    if pos >= to || end <= pos {
        (w, Ok(()))
    } else {
        let (w1, _, r1) = child_fit(v, w, ag, Par::Node(node), i, level, cs, pos, end);
        match r1 {
            Err(e) => (w1, Err(e)),
            Ok(_) => node_fit_from(v, w1, ag, node, level, ns, end, to),
        }
    }
}

/// Ensuring `pos` to `end` within the root `pl`. The root changes child by
/// child, each once it is done.
#[verifier::opaque]
pub open spec fn root_fit(v: Vol, w: Work, ag: u32, pl: Seq<u8>, level: int, pos: int, end: int) -> (
    Work,
    Seq<u8>,
    Result<(), FsError>,
)
    decreases end - pos,
{
    let c = treenode::cover(level);
    let i = pos / c;
    let cs = i * c;
    let stop = if end < cs + c {
        end
    } else {
        cs + c
    };
    if pos >= end || stop <= pos {
        (w, pl, Ok(()))
    } else {
        let (w1, par1, r1) = child_fit(v, w, ag, Par::Root(pl), i, level, cs, pos, stop);
        match r1 {
            Err(e) => (w1, pl, Err(e)),
            Ok(_) => root_fit(v, w1, ag, par1->Root_0, level, stop, end),
        }
    }
}

/// The children of a root, copied to a node from child `i` on.
#[verifier::opaque]
pub open spec fn gathered(b: Seq<u8>, pl: Seq<u8>, i: int) -> Seq<u8>
    decreases ROOT_FANOUT - i,
{
    if i >= ROOT_FANOUT {
        b
    } else if treenode::root_at(pl, i).st == CELL_FREE {
        gathered(b, pl, i + 1)
    } else {
        gathered(treenode::node_with(b, i, treenode::root_at(pl, i)), pl, i + 1)
    }
}

/// Whether the root maps anything.
pub open spec fn root_any(pl: Seq<u8>) -> bool {
    exists|i: int| 0 <= i < ROOT_FANOUT && (#[trigger] treenode::root_at(pl, i)).st != CELL_FREE
}

/// Raising the root by a level: its children move to a node that becomes the
/// first child. A root that maps nothing needs no node.
#[verifier::opaque]
pub open spec fn root_grown(v: Vol, p: Pool, ag: u32, pl: Seq<u8>) -> (
    Pool,
    Seq<u8>,
    Result<(), FsError>,
) {
    let level = pl[0];
    let up = treenode::empty_root((level + 1) as u8);
    let (p1, r1) = node_new(v, p, ag, level);
    match r1 {
        Err(e) => (p1, pl, Err(e)),
        Ok(node) => match treenode::node_of(v, p1.t, node) {
            Err(e) => (p1, pl, Err(e)),
            Ok(b) => {
                let p2 = Pool { t: treenode::node_to(p1.t, node, gathered(b, pl, 0)), ..p1 };
                if root_any(pl) {
                    (
                        p2,
                        treenode::root_with(
                            up,
                            0,
                            Child { st: CELL_REFINED, blocks: 0, addr: node },
                        ),
                        Ok(()),
                    )
                } else {
                    let (p3, r3) = allocator::freed(v, p2, node, 1);
                    match r3 {
                        Err(e) => (p3, pl, Err(e)),
                        Ok(_) => (p3, up, Ok(())),
                    }
                }
            },
        },
    }
}

/// Raising a root of level `level` until it covers `end` blocks.
#[verifier::opaque]
pub open spec fn grown_to(v: Vol, p: Pool, ag: u32, pl: Seq<u8>, level: int, end: int) -> (
    Pool,
    Seq<u8>,
    Result<(), FsError>,
)
    decreases MAX_LEVEL - level,
{
    if end <= ROOT_FANOUT * treenode::cover(level) {
        (p, pl, Ok(()))
    } else if level >= MAX_LEVEL {
        (p, pl, Err(FsError::FileTooBig))
    } else {
        let (p1, pl1, r1) = root_grown(v, p, ag, pl);
        match r1 {
            Err(e) => (p1, pl1, Err(e)),
            Ok(_) => grown_to(v, p1, ag, pl1, level + 1, end),
        }
    }
}

// --- recording runs -----------------------------------------------------------

/// Recording the run of `len` blocks at `blk` for file block `f` in child `i`
/// of `par`, of level `level`, whose range starts at `cs`.
pub open spec fn child_insert(
    v: Vol,
    p: Pool,
    ag: u32,
    par: Par,
    i: int,
    level: int,
    cs: int,
    f: int,
    blk: int,
    len: int,
) -> (Pool, Par, Result<(), FsError>)
    decreases level, 1int, 0int,
{
    match par_get(v, p.t, par, i) {
        Err(e) => (p, par, Err(e)),
        Ok(ch) => if ch.st == CELL_FREE && f == cs {
            let (t1, par1, r1) = par_set(
                v,
                p.t,
                par,
                i,
                Child { st: CELL_FULL, blocks: len as u32, addr: blk as u64 },
            );
            (Pool { t: t1, ..p }, par1, r1)
        } else if ch.st == CELL_FULL && f == cs + ch.blocks && blk == ch.addr + ch.blocks {
            // physically contiguous append
            if ch.blocks + len > u32::MAX {
                (p, par, Err(FsError::Corrupt))
            } else {
                let (t1, par1, r1) = par_set(
                    v,
                    p.t,
                    par,
                    i,
                    Child { st: CELL_FULL, blocks: (ch.blocks + len) as u32, addr: ch.addr },
                );
                (Pool { t: t1, ..p }, par1, r1)
            }
        } else if ch.st == CELL_FREE || ch.st == CELL_FULL {
            if level <= 0 {
                (p, par, Err(FsError::LevelZero))
            } else {
                let (p2, par2, r2) = refined(v, p, ag, par, i, level, ch);
                match r2 {
                    Err(e) => (p2, par2, Err(e)),
                    Ok(node) => {
                        let (p3, r3) = node_insert(v, p2, ag, node, level - 1, cs, f, blk, len);
                        (p3, par2, r3)
                    },
                }
            }
        } else if ch.st != CELL_REFINED {
            (p, par, Err(FsError::ChildState(ch.st)))
        } else if level <= 0 {
            (p, par, Err(FsError::Corrupt))
        } else {
            let (p3, r3) = node_insert(v, p, ag, ch.addr, level - 1, cs, f, blk, len);
            (p3, par, r3)
        },
    }
}

/// Recording a run within a node whose children are of level `level`.
pub open spec fn node_insert(
    v: Vol,
    p: Pool,
    ag: u32,
    node: u64,
    level: int,
    ns: int,
    f: int,
    blk: int,
    len: int,
) -> (Pool, Result<(), FsError>)
    decreases level, 3int, 0int,
{
    match treenode::node_level_of(v, p.t, node, level) {
        Err(e) => (p, Err(e)),
        Ok(_) => node_insert_from(v, p, ag, node, level, ns, f, blk, len, 0),
    }
}

pub open spec fn node_insert_from(
    v: Vol,
    p: Pool,
    ag: u32,
    node: u64,
    level: int,
    ns: int,
    f: int,
    blk: int,
    len: int,
    pos: int,
) -> (Pool, Result<(), FsError>)
    decreases level, 2int, len - pos,
{
    let c = treenode::cover(level);
    let i = (f + pos - ns) / c;
    let cs = ns + i * c;
    let stop = if len < cs + c - f {
        len
    } else {
        cs + c - f
    };
    if pos >= len || stop <= pos {
        (p, Ok(()))
    } else if blk + pos > u64::MAX {
        (p, Err(FsError::Corrupt))
    } else {
        let (p1, _, r1) = child_insert(
            v,
            p,
            ag,
            Par::Node(node),
            i,
            level,
            cs,
            f + pos,
            blk + pos,
            stop - pos,
        );
        match r1 {
            Err(e) => (p1, Err(e)),
            Ok(_) => node_insert_from(v, p1, ag, node, level, ns, f, blk, len, stop),
        }
    }
}

/// Recording a run in the root `pl` of level `level`, from block `pos` of it
/// on.
#[verifier::opaque]
pub open spec fn root_insert(
    v: Vol,
    p: Pool,
    ag: u32,
    pl: Seq<u8>,
    level: int,
    f: int,
    blk: int,
    len: int,
    pos: int,
) -> (Pool, Seq<u8>, Result<(), FsError>)
    decreases len - pos,
{
    let c = treenode::cover(level);
    let i = (f + pos) / c;
    let cs = i * c;
    let stop = if len < cs + c - f {
        len
    } else {
        cs + c - f
    };
    if pos >= len || stop <= pos {
        (p, pl, Ok(()))
    } else if blk + pos > u64::MAX {
        (p, pl, Err(FsError::Corrupt))
    } else {
        let (p1, par1, r1) = child_insert(
            v,
            p,
            ag,
            Par::Root(pl),
            i,
            level,
            cs,
            f + pos,
            blk + pos,
            stop - pos,
        );
        match r1 {
            Err(e) => (p1, pl, Err(e)),
            Ok(_) => root_insert(v, p1, ag, par1->Root_0, level, f, blk, len, stop),
        }
    }
}

/// One past the last file block that the extents map.
pub open spec fn end_of(es: Seq<Extent>) -> int
    decreases es.len(),
{
    if es.len() == 0 {
        0
    } else {
        let e = es.last().file_block + es.last().blocks;
        let rest = end_of(es.drop_last());
        if e > rest {
            e
        } else {
            rest
        }
    }
}

/// The lowest level from `level` on at which a root covers `end` blocks.
pub open spec fn level_for(end: int, level: int) -> int
    decreases MAX_LEVEL - level,
{
    if level >= MAX_LEVEL || end <= ROOT_FANOUT * treenode::cover(level) {
        level
    } else {
        level_for(end, level + 1)
    }
}

/// Recording the extents from `k` on.
pub open spec fn extents_insert(
    v: Vol,
    p: Pool,
    ag: u32,
    pl: Seq<u8>,
    level: int,
    es: Seq<Extent>,
    k: int,
) -> (Pool, Seq<u8>, Result<(), FsError>)
    decreases es.len() - k,
{
    if k >= es.len() {
        (p, pl, Ok(()))
    } else {
        let e = es[k];
        let (p1, pl1, r1) = root_insert(
            v,
            p,
            ag,
            pl,
            level,
            e.file_block as int,
            e.blk as int,
            e.blocks as int,
            0,
        );
        match r1 {
            Err(x) => (p1, pl1, Err(x)),
            Ok(_) => extents_insert(v, p1, ag, pl1, level, es, k + 1),
        }
    }
}

/// Turning inline extents into a tree.
#[verifier::opaque]
pub open spec fn treed(v: Vol, p: Pool, ag: u32, m: Mp, es: Seq<Extent>) -> (
    Pool,
    Mp,
    Result<(), FsError>,
) {
    let end = end_of(es);
    if end > TREE_LIMIT {
        (p, m, Err(FsError::FileTooBig))
    } else {
        let level = level_for(end, 0);
        let (p1, pl1, r1) = extents_insert(
            v,
            p,
            ag,
            treenode::empty_root(level as u8),
            level,
            es,
            0,
        );
        (p1, Mp { format: FMT_TREE, payload: pl1 }, r1)
    }
}

// --- inline extents -----------------------------------------------------------

/// The first extent from `i` on that maps file block `f`.
pub open spec fn covering(es: Seq<Extent>, f: int, i: int) -> Option<Extent>
    decreases es.len() - i,
{
    if i >= es.len() {
        None
    } else if mapping::covers(es[i], f) {
        Some(es[i])
    } else {
        covering(es, f, i + 1)
    }
}

/// The first mapped file block past `f`, if it lies before `end`; else `end`.
pub open spec fn next_mapped(es: Seq<Extent>, f: int, end: int, i: int) -> int
    decreases es.len() - i,
{
    if i >= es.len() {
        end
    } else {
        next_mapped(
            es,
            f,
            if f < es[i].file_block < end {
                es[i].file_block as int
            } else {
                end
            },
            i + 1,
        )
    }
}

/// The first extent from `i` on that ends where the run at `blk` for file
/// block `f` begins.
pub open spec fn adjoining(es: Seq<Extent>, f: int, blk: u64, i: int) -> Option<int>
    decreases es.len() - i,
{
    if i >= es.len() {
        None
    } else if es[i].file_block + es[i].blocks == f && es[i].blk + es[i].blocks == blk {
        Some(i)
    } else {
        adjoining(es, f, blk, i + 1)
    }
}

/// The extents with a new run: it lengthens the extent that it adjoins, else
/// stands behind the others.
pub open spec fn with_run(es: Seq<Extent>, f: int, blk: u64, n: int) -> Result<
    Seq<Extent>,
    FsError,
> {
    match adjoining(es, f, blk, 0) {
        Some(i) => if es[i].blocks + n > u32::MAX {
            Err(FsError::Corrupt)
        } else {
            Ok(es.update(i, Extent { blocks: (es[i].blocks + n) as u32, ..es[i] }))
        },
        None => Ok(es.push(Extent { file_block: f as u64, blk, blocks: n as u32 })),
    }
}

/// `e` put among extents in order of file block, behind its equals.
pub open spec fn put_sorted(es: Seq<Extent>, e: Extent) -> Seq<Extent>
    decreases es.len(),
{
    if es.len() == 0 || es.last().file_block <= e.file_block {
        es.push(e)
    } else {
        put_sorted(es.drop_last(), e).push(es.last())
    }
}

/// The extents in order of file block; equals keep their order.
pub open spec fn sorted(es: Seq<Extent>) -> Seq<Extent>
    decreases es.len(),
{
    if es.len() == 0 {
        es
    } else {
        put_sorted(sorted(es.drop_last()), es.last())
    }
}

/// One step of ensuring with inline extents `es`, at file block `pos`: past the
/// extent that maps it, or up to the next mapped block with a new run. Where
/// there is no such run but there are extents, the step is not done.
#[verifier::opaque]
pub open spec fn inline_step(v: Vol, w: Work, ag: u32, es: Seq<Extent>, pos: int, end: int) -> (
    Work,
    Seq<Extent>,
    Result<Option<int>, FsError>,
) {
    match covering(es, pos, 0) {
        Some(e) => {
            let far = e.file_block + e.blocks;
            (
                w,
                es,
                Ok(
                    Some(
                        if far < end {
                            far
                        } else {
                            end
                        },
                    ),
                ),
            )
        },
        None => {
            let next = next_mapped(es, pos, end, 0);
            let (p1, r1) = allocator::allocated(v, w.p, ag, next - pos);
            match r1 {
                Err(e) => (
                    Work { p: p1, ..w },
                    es,
                    if es.len() == 0 {
                        Err(e)
                    } else {
                        Ok(None)
                    },
                ),
                Ok(blk) => match with_run(es, pos, blk, next - pos) {
                    Err(e) => (Work { p: p1, ..w }, es, Err(e)),
                    Ok(es1) => (
                        Work {
                            p: p1,
                            fresh: w.fresh.push((pos as u64, (next - pos) as u64)),
                        },
                        es1,
                        Ok(Some(next)),
                    ),
                },
            }
        },
    }
}

/// Ensuring `pos` to `end` with inline extents `es`; `m` is the mapping as it
/// was. Where the extents become too many, or space comes in pieces only, the
/// mapping becomes a tree.
pub open spec fn inline_fit(
    v: Vol,
    w: Work,
    ag: u32,
    m: Mp,
    es: Seq<Extent>,
    pos: int,
    end: int,
) -> (Work, Mp, Result<(), FsError>)
    decreases
            if pos < end {
                end - pos
            } else {
                0
            },
{
    if pos >= end {
        if es.len() > MAX_INLINE_EXTENTS {
            let (p1, m1, r1) = treed(v, w.p, ag, m, es);
            (Work { p: p1, ..w }, m1, r1)
        } else {
            (
                w,
                Mp { format: m.format, payload: inode::extents_image(sorted(es)) },
                Ok(()),
            )
        }
    } else {
        let (w1, es1, r1) = inline_step(v, w, ag, es, pos, end);
        match r1 {
            Err(e) => (w1, m, Err(e)),
            Ok(None) => {
                let (p2, m2, r2) = treed(v, w1.p, ag, m, es);
                (Work { p: p2, ..w1 }, m2, r2)
            },
            Ok(Some(next)) => if next <= pos {
                (w1, m, Ok(()))
            } else {
                inline_fit(v, w1, ag, m, es1, next, end)
            },
        }
    }
}

// --- the whole ----------------------------------------------------------------

/// Ensuring a range in a tree, and the runs over it.
pub open spec fn tree_ensured(v: Vol, w: Work, ag: u32, m: Mp, f: int, n: int) -> (
    Pool,
    Mp,
    Result<Seq<(u64, u64, u64, bool)>, FsError>,
) {
    if m.payload[0] > MAX_LEVEL {
        (w.p, m, Err(FsError::Corrupt))
    } else {
        let (p1, pl1, r1) = grown_to(v, w.p, ag, m.payload, m.payload[0] as int, f + n);
        let m1 = Mp { payload: pl1, ..m };
        match r1 {
            Err(e) => (p1, m1, Err(e)),
            Ok(_) => {
                let (w2, pl2, r2) = root_fit(
                    v,
                    Work { p: p1, ..w },
                    ag,
                    pl1,
                    pl1[0] as int,
                    f,
                    f + n,
                );
                let m2 = Mp { payload: pl2, ..m };
                match r2 {
                    Err(e) => (w2.p, m2, Err(e)),
                    Ok(_) => (
                        w2.p,
                        m2,
                        mapping::runs_from(v, w2.p.t, m2, w2.fresh, f, f + n, Seq::empty()),
                    ),
                }
            },
        }
    }
}

/// Making file blocks `f` to `f + n` fully mapped, and the runs over them.
pub open spec fn ensured(v: Vol, p: Pool, ag: u32, m: Mp, f: int, n: int) -> (
    Pool,
    Mp,
    Result<Seq<(u64, u64, u64, bool)>, FsError>,
) {
    let w = Work { p, fresh: Seq::empty() };
    if f + n > u64::MAX {
        (p, m, Err(FsError::FileTooBig))
    } else if m.format == FMT_TREE {
        tree_ensured(v, w, ag, m, f, n)
    } else {
        let m0 = if m.format == FMT_EXTENT {
            m
        } else {
            Mp { format: FMT_EXTENT, payload: inode::extents_image(Seq::empty()) }
        };
        let (w1, m1, r1) = inline_fit(
            v,
            w,
            ag,
            m0,
            inode::extents_of(m0.payload),
            f,
            f + n,
        );
        match r1 {
            Err(e) => (w1.p, m1, Err(e)),
            Ok(_) => if m1.format == FMT_EXTENT {
                (
                    w1.p,
                    m1,
                    mapping::runs_from(v, w1.p.t, m1, w1.fresh, f, f + n, Seq::empty()),
                )
            } else {
                tree_ensured(v, w1, ag, m1, f, n)
            },
        }
    }
}

/// Uniform access to the root in an inode payload and to node blocks.
#[derive(Debug, Clone, Copy)]
pub enum RootOrNode {
    Root([u8; 128]),
    Node(u64),
}

impl View for RootOrNode {
    type V = Par;

    open spec fn view(&self) -> Par {
        match *self {
            RootOrNode::Root(p) => Par::Root(p@),
            RootOrNode::Node(a) => Par::Node(a),
        }
    }
}

impl RootOrNode {
    /// Child `i` is there.
    pub open spec fn has(&self, i: int) -> bool {
        match *self {
            RootOrNode::Root(_) => 0 <= i < 6,
            RootOrNode::Node(_) => 0 <= i < 64,
        }
    }

    pub open spec fn same_kind(&self, o: RootOrNode) -> bool {
        (self is Root) == (o is Root)
    }

    fn get(&self, g: &Gofs, t: &Txn, i: usize) -> (r: Result<Child, FsError>)
        requires
            g.wf(),
            g.sb.blocksize >= 2048,
            t.wf(g.sb.blocksize),
            self.has(i as int),
        ensures
            r == par_get(g.vol(), t@, self@, i as int),
            r matches Ok(c) ==> c.st < 4,
    {
        match self {
            RootOrNode::Root(p) => Ok(root_get(p, i)),
            RootOrNode::Node(addr) => {
                let buf = g.node_read(t, *addr)?;
                Ok(node_get(&buf, i))
            },
        }
    }

    fn set(&mut self, g: &Gofs, t: &mut Txn, i: usize, c: Child) -> (r: Result<(), FsError>)
        requires
            g.wf(),
            g.sb.blocksize >= 2048,
            old(t).wf(g.sb.blocksize),
            old(self).has(i as int),
            c.st < 4,
        ensures
            final(t).wf(g.sb.blocksize),
            final(self).same_kind(*old(self)),
            (final(t)@, final(self)@, r) == par_set(g.vol(), old(t)@, old(self)@, i as int, c),
    {
        match *self {
            RootOrNode::Root(p) => {
                let mut p = p;
                root_set(&mut p, i, c);
                *self = RootOrNode::Root(p);
                Ok(())
            },
            RootOrNode::Node(n) => {
                let mut buf = g.node_read(t, n)?;
                node_set(&mut buf, i, c);
                g.node_write(t, n, buf);
                Ok(())
            },
        }
    }
}

/// An allocation that succeeds fits a 32-bit block count.
pub proof fn lemma_allocated_fits(v: Vol, p: Pool, ag: u32, n: int)
    requires
        n >= 0,
        allocator::allocated(v, p, ag, n).1 is Ok,
    ensures
        n <= u32::MAX,
{
    reveal(allocator::allocated);
    if n >= 256 {
        fmt::lemma_ceil_div(n, 256);
    }
}

impl Gofs {
    pub fn node_alloc(&mut self, t: &mut Txn, ag: u32, level: u8) -> (r: Result<u64, FsError>)
        requires
            old(self).wf(),
            old(t).wf(old(self).sb.blocksize),
        ensures
            final(self).wf(),
            final(t).wf(final(self).sb.blocksize),
            allocator::only_counters(*old(self), *final(self)),
            (allocator::pool_of(*final(self), *final(t)), r) == node_new(
                old(self).vol(),
                allocator::pool_of(*old(self), *old(t)),
                ag,
                level,
            ),
    {
        let addr = self.alloc_block(t, ag)?;
        let buf = self.new_node(level);
        self.node_write(t, addr, buf);
        Ok(addr)
    }

    /// Spread an existing run over the children of a fresh node.
    #[verifier::loop_isolation(false)]
    fn redistribute(&self, t: &mut Txn, node: u64, level: u8, blocks: u32, addr: u64) -> (r: Result<
        (),
        FsError,
    >)
        requires
            self.wf(),
            self.sb.blocksize >= 2048,
            old(t).wf(self.sb.blocksize),
            level <= MAX_LEVEL,
        ensures
            final(t).wf(self.sb.blocksize),
            (final(t)@, r) == spread_over(
                self.vol(),
                old(t)@,
                node,
                level as int,
                blocks as int,
                addr,
            ),
    {
        proof {
            reveal(spread_over);
        }
        let mut buf = self.node_read_level(t, node, level)?;
        let c = cov(level);
        let n = blocks as u64;
        let ghost b0 = buf@;
        let mut done: u64 = 0;
        let mut i: usize = 0;
        while done < n
            invariant
                done <= n,
                i <= 64,
                buf@.len() == self.sb.blocksize,
                spread(b0, c as int, n as int, addr, 0, 0) == spread(
                    buf@,
                    c as int,
                    n as int,
                    addr,
                    done as int,
                    i as int,
                ),
            decreases n - done,
        {
            let take = if c < n - done { c } else { n - done };
            let at = match addr.checked_add(done) {
                Some(a) => a,
                None => return Err(FsError::Corrupt),
            };
            if i >= 64 {
                return Err(FsError::Corrupt);
            }
            node_set(&mut buf, i, Child { st: CELL_FULL, blocks: take as u32, addr: at });
            done = done + take;
            i = i + 1;
        }
        self.node_write(t, node, buf);
        Ok(())
    }

    /// Replace a hole or run by a node one level down.
    fn refine_child(
        &mut self,
        t: &mut Txn,
        ag: u32,
        parent: &mut RootOrNode,
        i: usize,
        level: u8,
        ch: Child,
    ) -> (r: Result<u64, FsError>)
        requires
            old(self).wf(),
            old(self).sb.blocksize >= 2048,
            old(t).wf(old(self).sb.blocksize),
            old(parent).has(i as int),
            0 < level <= MAX_LEVEL,
        ensures
            final(self).wf(),
            final(t).wf(final(self).sb.blocksize),
            allocator::only_counters(*old(self), *final(self)),
            final(parent).same_kind(*old(parent)),
            (allocator::pool_of(*final(self), *final(t)), final(parent)@, r) == refined(
                old(self).vol(),
                allocator::pool_of(*old(self), *old(t)),
                ag,
                old(parent)@,
                i as int,
                level as int,
                ch,
            ),
    {
        proof {
            reveal(refined);
        }
        let node = self.node_alloc(t, ag, level - 1)?;
        if ch.st == CELL_FULL {
            self.redistribute(t, node, level - 1, ch.blocks, ch.addr)?;
        }
        parent.set(self, t, i, Child { st: CELL_REFINED, blocks: 0, addr: node })?;
        Ok(node)
    }

    // --- ensure (allocate for writes) ------------------------------------------

    /// Ensure within one child of a root or node.
    fn child_ensure(
        &mut self,
        t: &mut Txn,
        ag: u32,
        parent: &mut RootOrNode,
        i: usize,
        level: u8,
        child_start: u64,
        from: u64,
        to: u64,
        fresh: &mut Vec<(u64, u64)>,
    ) -> (r: Result<(), FsError>)
        requires
            old(self).wf(),
            old(self).sb.blocksize >= 2048,
            old(t).wf(old(self).sb.blocksize),
            old(parent).has(i as int),
            level <= MAX_LEVEL,
            child_start <= from < to <= child_start + treenode::cover(level as int),
            child_start + treenode::cover(level as int) <= TREE_LIMIT,
        ensures
            final(self).wf(),
            final(t).wf(final(self).sb.blocksize),
            allocator::only_counters(*old(self), *final(self)),
            final(parent).same_kind(*old(parent)),
            (
                Work { p: allocator::pool_of(*final(self), *final(t)), fresh: final(fresh)@ },
                final(parent)@,
                r,
            ) == child_fit(
                old(self).vol(),
                Work { p: allocator::pool_of(*old(self), *old(t)), fresh: old(fresh)@ },
                ag,
                old(parent)@,
                i as int,
                level as int,
                child_start as int,
                from as int,
                to as int,
            ),
        decreases level, 1int,
    {
        let ch = parent.get(self, t, i)?;
        if ch.st == CELL_FULL && to - child_start <= ch.blocks as u64 {
            return Ok(());  // already mapped
        }
        if ch.st == CELL_FREE && from == child_start {
            // allocate a run from the start of the child range
            let want = to - child_start;
            match self.alloc_extent(t, ag, want) {
                Ok(blk) => {
                    proof {
                        lemma_allocated_fits(
                            old(self).vol(),
                            allocator::pool_of(*old(self), *old(t)),
                            ag,
                            want as int,
                        );
                    }
                    parent.set(self, t, i, Child { st: CELL_FULL, blocks: want as u32, addr: blk })?;
                    fresh.push((child_start, want));
                    return Ok(());
                },
                Err(e) => {
                    if level == 0 {
                        return Err(e);
                    }
                    // fragmented: refine and let smaller children try
                    let node = self.refine_child(t, ag, parent, i, level, ch)?;
                    return self.descend_ensure(
                        t,
                        ag,
                        node,
                        level - 1,
                        child_start,
                        from,
                        to,
                        fresh,
                    );
                },
            }
        }
        if ch.st == CELL_FREE || ch.st == CELL_FULL {
            if level == 0 {
                return Err(FsError::LevelZero);
            }
            let node = self.refine_child(t, ag, parent, i, level, ch)?;
            return self.descend_ensure(t, ag, node, level - 1, child_start, from, to, fresh);
        }
        if ch.st != CELL_REFINED {
            return Err(FsError::ChildState(ch.st));
        }
        if level == 0 {
            return Err(FsError::Corrupt);
        }
        self.descend_ensure(t, ag, ch.addr, level - 1, child_start, from, to, fresh)
    }

    /// Ensure within a node whose children are of level `level`.
    #[verifier::loop_isolation(false)]
    fn descend_ensure(
        &mut self,
        t: &mut Txn,
        ag: u32,
        node: u64,
        level: u8,
        node_start: u64,
        from: u64,
        to: u64,
        fresh: &mut Vec<(u64, u64)>,
    ) -> (r: Result<(), FsError>)
        requires
            old(self).wf(),
            old(self).sb.blocksize >= 2048,
            old(t).wf(old(self).sb.blocksize),
            level < MAX_LEVEL,
            node_start <= from < to <= node_start + treenode::cover(level + 1),
            node_start + treenode::cover(level + 1) <= TREE_LIMIT,
        ensures
            final(self).wf(),
            final(t).wf(final(self).sb.blocksize),
            allocator::only_counters(*old(self), *final(self)),
            (
                Work { p: allocator::pool_of(*final(self), *final(t)), fresh: final(fresh)@ },
                r,
            ) == node_fit(
                old(self).vol(),
                Work { p: allocator::pool_of(*old(self), *old(t)), fresh: old(fresh)@ },
                ag,
                node,
                level as int,
                node_start as int,
                from as int,
                to as int,
            ),
        decreases level, 2int,
    {
        let _buf = self.node_read_level(t, node, level)?;
        let c = cov(level);
        let ghost v = self.vol();
        let mut pos = from;
        while pos < to
            invariant
                from <= pos <= to,
                self.wf(),
                t.wf(self.sb.blocksize),
                self.vol() == v,
                allocator::only_counters(*old(self), *self),
                node_fit_from(
                    v,
                    Work { p: allocator::pool_of(*self, *t), fresh: fresh@ },
                    ag,
                    node,
                    level as int,
                    node_start as int,
                    pos as int,
                    to as int,
                ) == node_fit(
                    v,
                    Work { p: allocator::pool_of(*old(self), *old(t)), fresh: old(fresh)@ },
                    ag,
                    node,
                    level as int,
                    node_start as int,
                    from as int,
                    to as int,
                ),
            decreases to - pos,
        {
            let rel = pos - node_start;
            proof {
                mapping::lemma_child_index(rel as int, c as int, 64);
                lemma_child_range((rel / c) as int, c as int, 64);
            }
            let i = rel / c;
            let child_start = node_start + i * c;
            let want_end = if to < child_start + c { to } else { child_start + c };
            let mut parent = RootOrNode::Node(node);
            self.child_ensure(
                t,
                ag,
                &mut parent,
                i as usize,
                level,
                child_start,
                pos,
                want_end,
                fresh,
            )?;
            pos = want_end;
        }
        Ok(())
    }
}

/// Nothing of the inode changed but format and payload.
pub open spec fn only_mapping(a: Inode, b: Inode) -> bool {
    b == (Inode { format: b.format, payload: b.payload, ..a })
}

impl Gofs {
    /// Wrap the current root children into a node one level down and raise
    /// the root level.
    #[verifier::loop_isolation(false)]
    pub fn root_grow(&mut self, t: &mut Txn, ag: u32, payload: &mut [u8; 128]) -> (r: Result<
        (),
        FsError,
    >)
        requires
            old(self).wf(),
            old(self).sb.blocksize >= 2048,
            old(t).wf(old(self).sb.blocksize),
            old(payload)@[0] < MAX_LEVEL,
        ensures
            final(self).wf(),
            final(t).wf(final(self).sb.blocksize),
            allocator::only_counters(*old(self), *final(self)),
            (allocator::pool_of(*final(self), *final(t)), final(payload)@, r) == root_grown(
                old(self).vol(),
                allocator::pool_of(*old(self), *old(t)),
                ag,
                old(payload)@,
            ),
            r is Ok ==> final(payload)@[0] == old(payload)@[0] + 1,
    {
        proof {
            reveal(root_grown);
            reveal(gathered);
        }
        let level = root_level(payload);
        let node = self.node_alloc(t, ag, level)?;
        let mut buf = self.node_read(t, node)?;
        let ghost b0 = buf@;
        let ghost pl = payload@;
        let mut any = false;
        let mut i: usize = 0;
        while i < ROOT_FANOUT
            invariant
                i <= 6,
                buf@.len() == self.sb.blocksize,
                gathered(b0, pl, 0) == gathered(buf@, pl, i as int),
                any == exists|k: int|
                    0 <= k < i && (#[trigger] treenode::root_at(pl, k)).st != CELL_FREE,
            decreases 6 - i,
        {
            let ch = root_get(payload, i);
            assert(ch == treenode::root_at(pl, i as int));
            if ch.st != CELL_FREE {
                node_set(&mut buf, i, ch);
                any = true;
            }
            i = i + 1;
        }
        assert(any == root_any(pl));
        self.node_write(t, node, buf);
        let mut p = root_init(level + 1);
        if any {
            root_set(&mut p, 0, Child { st: CELL_REFINED, blocks: 0, addr: node });
        } else {
            // nothing mapped yet: drop the node again
            self.free_extent(t, node, 1)?;
        }
        *payload = p;
        Ok(())
    }

    // --- recording runs --------------------------------------------------------

    /// Record a run within one child of a root or node.
    fn insert_in_child(
        &mut self,
        t: &mut Txn,
        ag: u32,
        parent: &mut RootOrNode,
        i: usize,
        level: u8,
        child_start: u64,
        f: u64,
        blk: u64,
        len: u64,
    ) -> (r: Result<(), FsError>)
        requires
            old(self).wf(),
            old(self).sb.blocksize >= 2048,
            old(t).wf(old(self).sb.blocksize),
            old(parent).has(i as int),
            level <= MAX_LEVEL,
            0 < len <= u32::MAX,
            child_start <= f,
            f + len <= child_start + treenode::cover(level as int),
            child_start + treenode::cover(level as int) <= TREE_LIMIT,
        ensures
            final(self).wf(),
            final(t).wf(final(self).sb.blocksize),
            allocator::only_counters(*old(self), *final(self)),
            final(parent).same_kind(*old(parent)),
            (allocator::pool_of(*final(self), *final(t)), final(parent)@, r) == child_insert(
                old(self).vol(),
                allocator::pool_of(*old(self), *old(t)),
                ag,
                old(parent)@,
                i as int,
                level as int,
                child_start as int,
                f as int,
                blk as int,
                len as int,
            ),
        decreases level, 1int,
    {
        let ch = parent.get(self, t, i)?;
        if ch.st == CELL_FREE && f == child_start {
            return parent.set(self, t, i, Child { st: CELL_FULL, blocks: len as u32, addr: blk });
        }
        if ch.st == CELL_FULL && f - child_start == ch.blocks as u64 && blk >= ch.addr && blk
            - ch.addr == ch.blocks as u64 {
            // physically contiguous append
            if ((u32::MAX - ch.blocks) as u64) < len {
                return Err(FsError::Corrupt);
            }
            return parent.set(
                self,
                t,
                i,
                Child { st: CELL_FULL, blocks: ch.blocks + len as u32, addr: ch.addr },
            );
        }
        if ch.st == CELL_FREE || ch.st == CELL_FULL {
            if level == 0 {
                return Err(FsError::LevelZero);
            }
            let node = self.refine_child(t, ag, parent, i, level, ch)?;
            return self.insert_below(t, ag, node, level - 1, child_start, f, blk, len);
        }
        if ch.st != CELL_REFINED {
            return Err(FsError::ChildState(ch.st));
        }
        if level == 0 {
            return Err(FsError::Corrupt);
        }
        self.insert_below(t, ag, ch.addr, level - 1, child_start, f, blk, len)
    }

    /// Record a run within a node whose children are of level `level`.
    #[verifier::loop_isolation(false)]
    fn insert_below(
        &mut self,
        t: &mut Txn,
        ag: u32,
        node: u64,
        level: u8,
        node_start: u64,
        f: u64,
        blk: u64,
        len: u64,
    ) -> (r: Result<(), FsError>)
        requires
            old(self).wf(),
            old(self).sb.blocksize >= 2048,
            old(t).wf(old(self).sb.blocksize),
            level < MAX_LEVEL,
            0 < len <= u32::MAX,
            node_start <= f,
            f + len <= node_start + treenode::cover(level + 1),
            node_start + treenode::cover(level + 1) <= TREE_LIMIT,
        ensures
            final(self).wf(),
            final(t).wf(final(self).sb.blocksize),
            allocator::only_counters(*old(self), *final(self)),
            (allocator::pool_of(*final(self), *final(t)), r) == node_insert(
                old(self).vol(),
                allocator::pool_of(*old(self), *old(t)),
                ag,
                node,
                level as int,
                node_start as int,
                f as int,
                blk as int,
                len as int,
            ),
        decreases level, 2int,
    {
        let _buf = self.node_read_level(t, node, level)?;
        let c = cov(level);
        let ghost v = self.vol();
        let mut pos: u64 = 0;
        while pos < len
            invariant
                pos <= len,
                self.wf(),
                t.wf(self.sb.blocksize),
                self.vol() == v,
                allocator::only_counters(*old(self), *self),
                node_insert_from(
                    v,
                    allocator::pool_of(*self, *t),
                    ag,
                    node,
                    level as int,
                    node_start as int,
                    f as int,
                    blk as int,
                    len as int,
                    pos as int,
                ) == node_insert(
                    v,
                    allocator::pool_of(*old(self), *old(t)),
                    ag,
                    node,
                    level as int,
                    node_start as int,
                    f as int,
                    blk as int,
                    len as int,
                ),
            decreases len - pos,
        {
            let ff = f + pos;
            let rel = ff - node_start;
            proof {
                mapping::lemma_child_index(rel as int, c as int, 64);
                lemma_child_range((rel / c) as int, c as int, 64);
            }
            let i = rel / c;
            let child_start = node_start + i * c;
            let room = child_start + c - f;
            let stop = if len < room { len } else { room };
            let at = match blk.checked_add(pos) {
                Some(a) => a,
                None => return Err(FsError::Corrupt),
            };
            let mut parent = RootOrNode::Node(node);
            self.insert_in_child(
                t,
                ag,
                &mut parent,
                i as usize,
                level,
                child_start,
                ff,
                at,
                stop - pos,
            )?;
            pos = stop;
        }
        Ok(())
    }

    /// Record an already allocated run in a tree, splitting at child
    /// boundaries and refining where the run does not start a child range.
    #[verifier::loop_isolation(false)]
    fn insert_run(
        &mut self,
        t: &mut Txn,
        ag: u32,
        payload: &mut [u8; 128],
        level: u8,
        fblock: u64,
        blk: u64,
        len: u32,
    ) -> (r: Result<(), FsError>)
        requires
            old(self).wf(),
            old(self).sb.blocksize >= 2048,
            old(t).wf(old(self).sb.blocksize),
            level <= MAX_LEVEL,
            fblock + len <= ROOT_FANOUT * treenode::cover(level as int),
        ensures
            final(self).wf(),
            final(t).wf(final(self).sb.blocksize),
            allocator::only_counters(*old(self), *final(self)),
            (allocator::pool_of(*final(self), *final(t)), final(payload)@, r) == root_insert(
                old(self).vol(),
                allocator::pool_of(*old(self), *old(t)),
                ag,
                old(payload)@,
                level as int,
                fblock as int,
                blk as int,
                len as int,
                0,
            ),
    {
        proof {
            reveal(root_insert);
        }
        let c = cov(level);
        let n = len as u64;
        let ghost v = self.vol();
        let mut pos: u64 = 0;
        while pos < n
            invariant
                pos <= n,
                self.wf(),
                t.wf(self.sb.blocksize),
                self.vol() == v,
                allocator::only_counters(*old(self), *self),
                root_insert(
                    v,
                    allocator::pool_of(*self, *t),
                    ag,
                    payload@,
                    level as int,
                    fblock as int,
                    blk as int,
                    len as int,
                    pos as int,
                ) == root_insert(
                    v,
                    allocator::pool_of(*old(self), *old(t)),
                    ag,
                    old(payload)@,
                    level as int,
                    fblock as int,
                    blk as int,
                    len as int,
                    0,
                ),
            decreases n - pos,
        {
            let f = fblock + pos;
            proof {
                mapping::lemma_child_index(f as int, c as int, 6);
                lemma_child_range((f / c) as int, c as int, 6);
            }
            let i = f / c;
            let child_start = i * c;
            let room = child_start + c - fblock;
            let stop = if n < room { n } else { room };
            let at = match blk.checked_add(pos) {
                Some(a) => a,
                None => return Err(FsError::Corrupt),
            };
            let mut parent = RootOrNode::Root(*payload);
            self.insert_in_child(
                t,
                ag,
                &mut parent,
                i as usize,
                level,
                child_start,
                f,
                at,
                stop - pos,
            )?;
            if let RootOrNode::Root(p) = parent {
                *payload = p;
            }
            pos = stop;
        }
        Ok(())
    }
}

/// One past the last file block that the extents map, if a tree can map it.
fn extents_end(es: &Vec<Extent>) -> (r: Option<u64>)
    ensures
        match r {
            Some(end) => end == end_of(es@) <= TREE_LIMIT,
            None => end_of(es@) > TREE_LIMIT,
        },
{
    let mut end: u64 = 0;
    let mut over = false;
    let mut i: usize = 0;
    assert(es@.take(0) =~= Seq::<Extent>::empty());
    while i < es.len()
        invariant
            i <= es@.len(),
            end <= TREE_LIMIT,
            over ==> end_of(es@.take(i as int)) > TREE_LIMIT,
            !over ==> end == end_of(es@.take(i as int)),
        decreases es@.len() - i,
    {
        let e = es[i];
        assert(es@.take(i + 1).drop_last() =~= es@.take(i as int));
        if e.file_block > TREE_LIMIT || e.file_block + e.blocks as u64 > TREE_LIMIT {
            over = true;
        } else if e.file_block + e.blocks as u64 > end {
            end = e.file_block + e.blocks as u64;
        }
        i = i + 1;
    }
    assert(es@.take(es@.len() as int) =~= es@);
    if over {
        None
    } else {
        Some(end)
    }
}

pub proof fn lemma_end_of(es: Seq<Extent>, k: int)
    requires
        0 <= k < es.len(),
    ensures
        es[k].file_block + es[k].blocks <= end_of(es),
    decreases es.len(),
{
    if k < es.len() - 1 {
        lemma_end_of(es.drop_last(), k);
    }
}

/// The lowest level at which a root covers `end` blocks.
fn find_level(end: u64) -> (r: u8)
    requires
        end <= TREE_LIMIT,
    ensures
        r == level_for(end as int, 0),
        r <= MAX_LEVEL,
        end <= ROOT_FANOUT * treenode::cover(r as int),
{
    let mut level: u8 = 0;
    while level < MAX_LEVEL && ROOT_FANOUT as u64 * cov(level) < end
        invariant
            level <= MAX_LEVEL,
            level_for(end as int, 0) == level_for(end as int, level as int),
        decreases MAX_LEVEL - level,
    {
        level = level + 1;
    }
    proof {
        reveal_with_fuel(treenode::cover, 12);
        assert(treenode::cover(10) == 0x1000_0000_0000_0000);
    }
    level
}

/// Find the extent that maps file block `f`.
fn find_covering(es: &Vec<Extent>, f: u64) -> (r: Option<Extent>)
    ensures
        r == covering(es@, f as int, 0),
        r matches Some(e) ==> mapping::covers(e, f as int),
{
    let mut i: usize = 0;
    while i < es.len()
        invariant
            i <= es@.len(),
            covering(es@, f as int, 0) == covering(es@, f as int, i as int),
        decreases es@.len() - i,
    {
        let e = es[i];
        if f >= e.file_block && f - e.file_block < e.blocks as u64 {
            return Some(e);
        }
        i = i + 1;
    }
    None
}

/// Find the first mapped file block past `f`, before `end`.
fn find_next(es: &Vec<Extent>, f: u64, end: u64) -> (r: u64)
    requires
        f < end,
    ensures
        r == next_mapped(es@, f as int, end as int, 0),
        f < r <= end,
{
    let mut next = end;
    let mut i: usize = 0;
    while i < es.len()
        invariant
            i <= es@.len(),
            f < next <= end,
            next_mapped(es@, f as int, end as int, 0) == next_mapped(
                es@,
                f as int,
                next as int,
                i as int,
            ),
        decreases es@.len() - i,
    {
        let e = es[i];
        if e.file_block > f && e.file_block < next {
            next = e.file_block;
        }
        i = i + 1;
    }
    next
}

/// Add a run: lengthen the extent that it adjoins, else add one.
fn add_run(es: &mut Vec<Extent>, f: u64, blk: u64, n: u32) -> (r: Result<(), FsError>)
    ensures
        match with_run(old(es)@, f as int, blk, n as int) {
            Ok(s) => r is Ok && final(es)@ == s,
            Err(e) => r == Err::<(), FsError>(e),
        },
{
    let mut i: usize = 0;
    while i < es.len()
        invariant
            i <= es@.len(),
            es@ == old(es)@,
            adjoining(es@, f as int, blk, 0) == adjoining(es@, f as int, blk, i as int),
        decreases es@.len() - i,
    {
        let e = es[i];
        let k = e.blocks as u64;
        if f >= e.file_block && f - e.file_block == k && blk >= e.blk && blk - e.blk == k {
            if u32::MAX - e.blocks < n {
                return Err(FsError::Corrupt);
            }
            es.set(i, Extent { blocks: e.blocks + n, ..e });
            return Ok(());
        }
        i = i + 1;
    }
    es.push(Extent { file_block: f, blk, blocks: n });
    Ok(())
}

/// The extents in order of file block.
fn sort_extents(es: &Vec<Extent>) -> (r: Vec<Extent>)
    ensures
        r@ == sorted(es@),
        r@.len() == es@.len(),
{
    let mut out: Vec<Extent> = Vec::new();
    let mut i: usize = 0;
    assert(es@.take(0) =~= Seq::<Extent>::empty());
    assert(out@ =~= sorted(es@.take(0)));
    while i < es.len()
        invariant
            i <= es@.len(),
            out@ == sorted(es@.take(i as int)),
            out@.len() == i,
        decreases es@.len() - i,
    {
        let e = es[i];
        let ghost base = out@;
        let mut k = out.len();
        assert(base.take(k as int) =~= base);
        assert(base.skip(k as int) =~= Seq::<Extent>::empty());
        assert(put_sorted(base, e) =~= put_sorted(base.take(k as int), e) + base.skip(k as int));
        while k > 0 && out[k - 1].file_block > e.file_block
            invariant
                k <= out@.len(),
                out@ == base,
                put_sorted(base, e) == put_sorted(base.take(k as int), e) + base.skip(k as int),
            decreases k,
        {
            proof {
                let b = base.take(k as int);
                assert(b.drop_last() =~= base.take(k - 1));
                assert(put_sorted(b, e) == put_sorted(b.drop_last(), e).push(b.last()));
                assert(put_sorted(b.drop_last(), e).push(b.last()) + base.skip(k as int)
                    =~= put_sorted(base.take(k - 1), e) + base.skip(k - 1));
            }
            k = k - 1;
        }
        proof {
            let b = base.take(k as int);
            assert(k > 0 ==> b.last() == base[k - 1]);
            assert(put_sorted(b, e) =~= b.push(e));
            assert(b.push(e) + base.skip(k as int) =~= base.insert(k as int, e));
        }
        out.insert(k, e);
        assert(es@.take(i + 1).drop_last() =~= es@.take(i as int));
        i = i + 1;
    }
    assert(es@.take(es@.len() as int) =~= es@);
    out
}

impl Gofs {
    /// Record the extents in a root of level `level`.
    fn insert_extents(
        &mut self,
        t: &mut Txn,
        ag: u32,
        payload: &mut [u8; 128],
        level: u8,
        extents: &Vec<Extent>,
    ) -> (r: Result<(), FsError>)
        requires
            old(self).wf(),
            old(self).sb.blocksize >= 2048,
            old(t).wf(old(self).sb.blocksize),
            level <= MAX_LEVEL,
            end_of(extents@) <= ROOT_FANOUT * treenode::cover(level as int),
        ensures
            final(self).wf(),
            final(t).wf(final(self).sb.blocksize),
            allocator::only_counters(*old(self), *final(self)),
            (allocator::pool_of(*final(self), *final(t)), final(payload)@, r) == extents_insert(
                old(self).vol(),
                allocator::pool_of(*old(self), *old(t)),
                ag,
                old(payload)@,
                level as int,
                extents@,
                0,
            ),
    {
        let ghost v = self.vol();
        let ghost want = extents_insert(
            v,
            allocator::pool_of(*self, *t),
            ag,
            payload@,
            level as int,
            extents@,
            0,
        );
        let mut k: usize = 0;
        while k < extents.len()
            invariant
                k <= extents@.len(),
                self.wf(),
                self.sb.blocksize >= 2048,
                t.wf(self.sb.blocksize),
                self.vol() == v,
                level <= MAX_LEVEL,
                end_of(extents@) <= ROOT_FANOUT * treenode::cover(level as int),
                allocator::only_counters(*old(self), *self),
                want == extents_insert(
                    old(self).vol(),
                    allocator::pool_of(*old(self), *old(t)),
                    ag,
                    old(payload)@,
                    level as int,
                    extents@,
                    0,
                ),
                extents_insert(
                    v,
                    allocator::pool_of(*self, *t),
                    ag,
                    payload@,
                    level as int,
                    extents@,
                    k as int,
                ) == want,
            decreases extents@.len() - k,
        {
            let e = extents[k];
            proof {
                lemma_end_of(extents@, k as int);
            }
            self.insert_run(t, ag, payload, level, e.file_block, e.blk, e.blocks)?;
            k = k + 1;
        }
        Ok(())
    }

    /// Convert inline extents to a tree.
    pub fn to_tree(&mut self, t: &mut Txn, ag: u32, inode: &mut Inode, extents: &Vec<Extent>) -> (r:
        Result<(), FsError>)
        requires
            old(self).wf(),
            old(self).sb.blocksize >= 2048,
            old(t).wf(old(self).sb.blocksize),
        ensures
            final(self).wf(),
            final(t).wf(final(self).sb.blocksize),
            allocator::only_counters(*old(self), *final(self)),
            only_mapping(*old(inode), *final(inode)),
            (allocator::pool_of(*final(self), *final(t)), mapping::mp_of(*final(inode)), r) == treed(
                old(self).vol(),
                allocator::pool_of(*old(self), *old(t)),
                ag,
                mapping::mp_of(*old(inode)),
                extents@,
            ),
    {
        proof {
            reveal(treed);
        }
        let end = match extents_end(extents) {
            Some(e) => e,
            None => return Err(FsError::FileTooBig),
        };
        let level = find_level(end);
        let mut payload = root_init(level);
        let r = self.insert_extents(t, ag, &mut payload, level, extents);
        inode.format = FMT_TREE;
        inode.payload = payload;
        r
    }

    /// One step of ensuring with inline extents.
    fn extent_step(
        &mut self,
        t: &mut Txn,
        ag: u32,
        extents: &mut Vec<Extent>,
        pos: u64,
        end: u64,
        fresh: &mut Vec<(u64, u64)>,
    ) -> (r: Result<Option<u64>, FsError>)
        requires
            old(self).wf(),
            old(t).wf(old(self).sb.blocksize),
            pos < end,
        ensures
            final(self).wf(),
            final(t).wf(final(self).sb.blocksize),
            allocator::only_counters(*old(self), *final(self)),
            ({
                let (w1, es1, r1) = inline_step(
                    old(self).vol(),
                    Work { p: allocator::pool_of(*old(self), *old(t)), fresh: old(fresh)@ },
                    ag,
                    old(extents)@,
                    pos as int,
                    end as int,
                );
                &&& w1 == (Work {
                    p: allocator::pool_of(*final(self), *final(t)),
                    fresh: final(fresh)@,
                })
                &&& match r {
                    Ok(Some(next)) => es1 == final(extents)@ && pos < next <= end && r1 == Ok::<
                        Option<int>,
                        FsError,
                    >(Some(next as int)),
                    Ok(None) => r1 == Ok::<Option<int>, FsError>(None) && final(extents)@ == old(
                        extents,
                    )@,
                    Err(e) => r1 == Err::<Option<int>, FsError>(e),
                }
            }),
    {
        proof {
            reveal(inline_step);
        }
        if let Some(e) = find_covering(extents, pos) {
            let left = e.blocks as u64 - (pos - e.file_block);
            return Ok(Some(if left < end - pos { pos + left } else { end }));
        }
        let next = find_next(extents, pos, end);
        let want = next - pos;
        match self.alloc_extent(t, ag, want) {
            Ok(blk) => {
                proof {
                    lemma_allocated_fits(
                        old(self).vol(),
                        allocator::pool_of(*old(self), *old(t)),
                        ag,
                        want as int,
                    );
                }
                // lengthen the extent that ends at pos if possible, else add one
                add_run(extents, pos, blk, want as u32)?;
                fresh.push((pos, want));
                Ok(Some(next))
            },
            Err(e) => {
                if extents.len() == 0 {
                    Err(e)
                } else {
                    Ok(None)
                }
            },
        }
    }

    /// Ensure on the inline-extent format; converts to a tree on overflow.
    fn extent_ensure(
        &mut self,
        t: &mut Txn,
        ag: u32,
        inode: &mut Inode,
        fblock: u64,
        n: u64,
        fresh: &mut Vec<(u64, u64)>,
    ) -> (r: Result<(), FsError>)
        requires
            old(self).wf(),
            old(self).sb.blocksize >= 2048,
            old(t).wf(old(self).sb.blocksize),
            fblock + n <= u64::MAX,
        ensures
            final(self).wf(),
            final(t).wf(final(self).sb.blocksize),
            allocator::only_counters(*old(self), *final(self)),
            only_mapping(*old(inode), *final(inode)),
            (
                Work { p: allocator::pool_of(*final(self), *final(t)), fresh: final(fresh)@ },
                mapping::mp_of(*final(inode)),
                r,
            ) == inline_fit(
                old(self).vol(),
                Work { p: allocator::pool_of(*old(self), *old(t)), fresh: old(fresh)@ },
                ag,
                mapping::mp_of(*old(inode)),
                inode::extents_of(old(inode).payload@),
                fblock as int,
                fblock + n,
            ),
    {
        let mut extents = extents_parse(&inode.payload);
        let mut pos = fblock;
        let end = fblock + n;
        let ghost v = self.vol();
        let ghost m = mapping::mp_of(*inode);
        let ghost want0 = inline_fit(
            v,
            Work { p: allocator::pool_of(*self, *t), fresh: fresh@ },
            ag,
            m,
            extents@,
            fblock as int,
            end as int,
        );
        while pos < end
            invariant
                self.wf(),
                self.sb.blocksize >= 2048,
                t.wf(self.sb.blocksize),
                self.vol() == v,
                allocator::only_counters(*old(self), *self),
                pos <= end,
                *inode == *old(inode),
                m == mapping::mp_of(*inode),
                want0 == inline_fit(
                    old(self).vol(),
                    Work { p: allocator::pool_of(*old(self), *old(t)), fresh: old(fresh)@ },
                    ag,
                    mapping::mp_of(*old(inode)),
                    inode::extents_of(old(inode).payload@),
                    fblock as int,
                    fblock + n,
                ),
                want0 == inline_fit(
                    v,
                    Work { p: allocator::pool_of(*self, *t), fresh: fresh@ },
                    ag,
                    m,
                    extents@,
                    pos as int,
                    end as int,
                ),
            decreases end - pos,
        {
            match self.extent_step(t, ag, &mut extents, pos, end, fresh)? {
                Some(next) => {
                    pos = next;
                },
                None => {
                    // space comes in pieces: go to a tree and retry there
                    return self.to_tree(t, ag, inode, &extents);
                },
            }
        }
        if extents.len() > MAX_INLINE_EXTENTS {
            self.to_tree(t, ag, inode, &extents)
        } else {
            let es = sort_extents(&extents);
            match extents_store(&mut inode.payload, &es) {
                Ok(_) => Ok(()),
                Err(e) => Err(FsError::Encode(e)),
            }
        }
    }
}

impl Gofs {
    /// Raise the root until it covers `end` blocks.
    fn grow_root(&mut self, t: &mut Txn, ag: u32, payload: &mut [u8; 128], end: u64) -> (r: Result<
        (),
        FsError,
    >)
        requires
            old(self).wf(),
            old(self).sb.blocksize >= 2048,
            old(t).wf(old(self).sb.blocksize),
            old(payload)@[0] <= MAX_LEVEL,
        ensures
            final(self).wf(),
            final(t).wf(final(self).sb.blocksize),
            allocator::only_counters(*old(self), *final(self)),
            (allocator::pool_of(*final(self), *final(t)), final(payload)@, r) == grown_to(
                old(self).vol(),
                allocator::pool_of(*old(self), *old(t)),
                ag,
                old(payload)@,
                old(payload)@[0] as int,
                end as int,
            ),
            r is Ok ==> final(payload)@[0] <= MAX_LEVEL && end <= ROOT_FANOUT * treenode::cover(
                final(payload)@[0] as int,
            ),
    {
        let ghost v = self.vol();
        let ghost want = grown_to(
            v,
            allocator::pool_of(*self, *t),
            ag,
            payload@,
            payload@[0] as int,
            end as int,
        );
        loop
            invariant
                self.wf(),
                self.sb.blocksize >= 2048,
                t.wf(self.sb.blocksize),
                self.vol() == v,
                allocator::only_counters(*old(self), *self),
                payload@[0] <= MAX_LEVEL,
                want == grown_to(
                    old(self).vol(),
                    allocator::pool_of(*old(self), *old(t)),
                    ag,
                    old(payload)@,
                    old(payload)@[0] as int,
                    end as int,
                ),
                want == grown_to(
                    v,
                    allocator::pool_of(*self, *t),
                    ag,
                    payload@,
                    payload@[0] as int,
                    end as int,
                ),
            decreases MAX_LEVEL - payload@[0],
        {
            proof {
                reveal_with_fuel(grown_to, 1);
            }
            let level = root_level(payload);
            if end <= ROOT_FANOUT as u64 * cov(level) {
                return Ok(());
            }
            if level >= MAX_LEVEL {
                return Err(FsError::FileTooBig);
            }
            self.root_grow(t, ag, payload)?;
        }
    }

    /// Ensure a range within the root.
    #[verifier::loop_isolation(false)]
    fn root_ensure(
        &mut self,
        t: &mut Txn,
        ag: u32,
        payload: &mut [u8; 128],
        from: u64,
        end: u64,
        fresh: &mut Vec<(u64, u64)>,
    ) -> (r: Result<(), FsError>)
        requires
            old(self).wf(),
            old(self).sb.blocksize >= 2048,
            old(t).wf(old(self).sb.blocksize),
            old(payload)@[0] <= MAX_LEVEL,
            from <= end <= ROOT_FANOUT * treenode::cover(old(payload)@[0] as int),
        ensures
            final(self).wf(),
            final(t).wf(final(self).sb.blocksize),
            allocator::only_counters(*old(self), *final(self)),
            (
                Work { p: allocator::pool_of(*final(self), *final(t)), fresh: final(fresh)@ },
                final(payload)@,
                r,
            ) == root_fit(
                old(self).vol(),
                Work { p: allocator::pool_of(*old(self), *old(t)), fresh: old(fresh)@ },
                ag,
                old(payload)@,
                old(payload)@[0] as int,
                from as int,
                end as int,
            ),
    {
        let level = root_level(payload);
        let c = cov(level);
        let ghost v = self.vol();
        let ghost want = root_fit(
            v,
            Work { p: allocator::pool_of(*self, *t), fresh: fresh@ },
            ag,
            payload@,
            level as int,
            from as int,
            end as int,
        );
        let mut pos = from;
        proof {
            reveal(root_fit);
        }
        while pos < end
            invariant
                from <= pos <= end,
                self.wf(),
                t.wf(self.sb.blocksize),
                self.vol() == v,
                allocator::only_counters(*old(self), *self),
                want == root_fit(
                    v,
                    Work { p: allocator::pool_of(*self, *t), fresh: fresh@ },
                    ag,
                    payload@,
                    level as int,
                    pos as int,
                    end as int,
                ),
            decreases end - pos,
        {
            proof {
                mapping::lemma_child_index(pos as int, c as int, 6);
                lemma_child_range((pos / c) as int, c as int, 6);
            }
            let i = pos / c;
            let child_start = i * c;
            let want_end = if end < child_start + c { end } else { child_start + c };
            let mut parent = RootOrNode::Root(*payload);
            self.child_ensure(
                t,
                ag,
                &mut parent,
                i as usize,
                level,
                child_start,
                pos,
                want_end,
                fresh,
            )?;
            if let RootOrNode::Root(p) = parent {
                *payload = p;
            }
            pos = want_end;
        }
        Ok(())
    }

    /// Ensure a range of a tree, and collect the runs over it.
    fn tree_ensure(
        &mut self,
        t: &mut Txn,
        ag: u32,
        inode: &mut Inode,
        fblock: u64,
        n: u64,
        fresh: Vec<(u64, u64)>,
    ) -> (r: Result<Vec<(u64, u64, u64, bool)>, FsError>)
        requires
            old(self).wf(),
            old(self).sb.blocksize >= 2048,
            old(t).wf(old(self).sb.blocksize),
            fblock + n <= u64::MAX,
        ensures
            final(self).wf(),
            final(t).wf(final(self).sb.blocksize),
            allocator::only_counters(*old(self), *final(self)),
            only_mapping(*old(inode), *final(inode)),
            ({
                let (p1, m1, r1) = tree_ensured(
                    old(self).vol(),
                    Work { p: allocator::pool_of(*old(self), *old(t)), fresh: fresh@ },
                    ag,
                    mapping::mp_of(*old(inode)),
                    fblock as int,
                    n as int,
                );
                &&& p1 == allocator::pool_of(*final(self), *final(t))
                &&& m1 == mapping::mp_of(*final(inode))
                &&& match r {
                    Ok(v) => r1 == Ok::<Seq<(u64, u64, u64, bool)>, FsError>(v@),
                    Err(e) => r1 == Err::<Seq<(u64, u64, u64, bool)>, FsError>(e),
                }
            }),
    {
        let mut fresh = fresh;
        if root_level(&inode.payload) > MAX_LEVEL {
            return Err(FsError::Corrupt);
        }
        let mut payload = inode.payload;
        let grown = self.grow_root(t, ag, &mut payload, fblock + n);
        inode.payload = payload;
        grown?;
        let fit = self.root_ensure(t, ag, &mut payload, fblock, fblock + n, &mut fresh);
        inode.payload = payload;
        fit?;
        self.collect_runs(t, inode, fblock, n, &fresh)
    }

    /// Make `[fblock, fblock + n)` fully mapped, allocating where needed.
    /// Returns the runs covering the range as (file block, address, length,
    /// fresh); fresh runs were newly allocated by this call.
    pub fn map_ensure(&mut self, t: &mut Txn, ag: u32, inode: &mut Inode, fblock: u64, n: u64) -> (r:
        Result<Vec<(u64, u64, u64, bool)>, FsError>)
        requires
            old(self).wf(),
            old(self).sb.blocksize >= 2048,
            old(t).wf(old(self).sb.blocksize),
        ensures
            final(self).wf(),
            final(t).wf(final(self).sb.blocksize),
            allocator::only_counters(*old(self), *final(self)),
            only_mapping(*old(inode), *final(inode)),
            ({
                let (p1, m1, r1) = ensured(
                    old(self).vol(),
                    allocator::pool_of(*old(self), *old(t)),
                    ag,
                    mapping::mp_of(*old(inode)),
                    fblock as int,
                    n as int,
                );
                &&& p1 == allocator::pool_of(*final(self), *final(t))
                &&& m1 == mapping::mp_of(*final(inode))
                &&& match r {
                    Ok(v) => r1 == Ok::<Seq<(u64, u64, u64, bool)>, FsError>(v@),
                    Err(e) => r1 == Err::<Seq<(u64, u64, u64, bool)>, FsError>(e),
                }
            }),
    {
        if n > u64::MAX - fblock {
            return Err(FsError::FileTooBig);
        }
        let mut fresh: Vec<(u64, u64)> = Vec::new();
        assert(fresh@ =~= Seq::empty());
        if inode.format == FMT_TREE {
            return self.tree_ensure(t, ag, inode, fblock, n, fresh);
        }
        if inode.format != FMT_EXTENT {
            // empty, or embedded and already lifted by the caller: start inline
            inode.format = FMT_EXTENT;
            let none: Vec<Extent> = Vec::new();
            assert(none@ =~= Seq::<Extent>::empty());
            if let Err(e) = extents_store(&mut inode.payload, &none) {
                return Err(FsError::Encode(e));
            }
        }
        self.extent_ensure(t, ag, inode, fblock, n, &mut fresh)?;
        if inode.format == FMT_EXTENT {
            return self.collect_runs(t, inode, fblock, n, &fresh);
        }
        self.tree_ensure(t, ag, inode, fblock, n, fresh)
    }
}

/// The range of child `i` of `n` lies within the range of all.
pub proof fn lemma_child_range(i: int, c: int, n: int)
    requires
        0 <= i < n,
        c > 0,
    ensures
        0 <= i * c,
        i * c + c <= n * c,
{
    assert(0 <= i * c && i * c + c <= n * c) by (nonlinear_arith)
        requires
            0 <= i < n,
            c > 0,
    ;
}

} // verus!
