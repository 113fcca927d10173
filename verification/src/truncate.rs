//! Releasing what a mapping holds: all of it, or what lies past a cutoff.
//!
//! Truncation frees whole children beyond the cutoff and trims a run that
//! straddles it at an allocation-granule boundary; emptied nodes coarsen away.

use crate::allocator::Pool;
use crate::error::FsError;
use crate::fmt::{
    blk_split, div_up, ALLOC_FANOUT, CELL_BLOCKS, CELL_FREE, CELL_FULL, CELL_REFINED, FMT_EMBED,
    FMT_EMPTY, FMT_EXTENT, FMT_TREE, ROOT_FANOUT,
};
use crate::fs::Gofs;
use crate::inode::{extents_parse, extents_store, Extent, Inode};
use crate::mapping::Mp;
use crate::record::{rec_state};
use crate::treenode::{cov, node_get, node_set, root_get, root_level, root_set, Child, MAX_LEVEL, TREE_LIMIT};
use crate::txn::Txn;
use crate::vol::Vol;
use vstd::prelude::*;

use crate::allocator;
use crate::extent;
use crate::fmt;
use crate::fs;
use crate::inode;
use crate::mapping;
use crate::roottable;
use crate::treenode;

verus! {

/// The allocation unit that block `addr` was allocated in, in blocks: a whole
/// level-0 cell, a level-1 cell, or the block itself.
#[verifier::opaque]
pub open spec fn granule(v: Vol, t: Map<u64, Seq<u8>>, addr: u64) -> Result<int, FsError> {
    let ag = fmt::addr_ag(addr);
    let local = fmt::addr_local(addr);
    let c = (local / CELL_BLOCKS) as int;
    match fs::header_of(v, t, ag) {
        Err(e) => Err(e),
        Ok(hdr) => match roottable::cell_of(v, t, hdr, c) {
            Err(e) => Err(e),
            Ok(st) => if st == CELL_FULL {
                Ok(CELL_BLOCKS as int)
            } else if st != CELL_REFINED {
                Err(FsError::CellState { ag, cell: c as u64, state: st })
            } else {
                match roottable::cell_ref(v, t, hdr, c) {
                    Err(e) => Err(e),
                    Ok(l0) => match roottable::record_of(v, t, ag, l0) {
                        Err(e) => Err(e),
                        Ok(rec) => {
                            let s = fmt::cell_at(rec, (local % CELL_BLOCKS / ALLOC_FANOUT) as int);
                            if s == CELL_FULL {
                                Ok(ALLOC_FANOUT as int)
                            } else if s == CELL_REFINED {
                                Ok(1)
                            } else {
                                Err(FsError::SubcellState(s))
                            }
                        },
                    },
                }
            },
        },
    }
}

/// A sum that must fit 64 bits.
pub open spec fn plus(a: int, b: int) -> Result<int, FsError> {
    if a + b > u64::MAX {
        Err(FsError::Corrupt)
    } else {
        Ok(a + b)
    }
}

/// Freeing what a child of level `level` maps: how many data blocks went
/// (node blocks are not counted).
pub open spec fn child_freed(v: Vol, p: Pool, ch: Child, level: int) -> (Pool, Result<int, FsError>)
    decreases level, 1int, 0int,
{
    if ch.st == CELL_FREE {
        (p, Ok(0))
    } else if ch.st == CELL_FULL {
        let (p1, r1) = allocator::freed(v, p, ch.addr, ch.blocks as int);
        match r1 {
            Err(e) => (p1, Err(e)),
            Ok(_) => (p1, Ok(ch.blocks as int)),
        }
    } else if ch.st != CELL_REFINED {
        (p, Err(FsError::ChildState(ch.st)))
    } else if level <= 0 {
        (p, Err(FsError::Corrupt))
    } else {
        match treenode::node_level_of(v, p.t, ch.addr, level - 1) {
            Err(e) => (p, Err(e)),
            Ok(b) => {
                let (p1, r1) = children_freed(v, p, b, level - 1, 0, 0);
                match r1 {
                    Err(e) => (p1, Err(e)),
                    Ok(n) => {
                        // the node block itself
                        let (p2, r2) = allocator::freed(v, p1, ch.addr, 1);
                        match r2 {
                            Err(e) => (p2, Err(e)),
                            Ok(_) => (p2, Ok(n)),
                        }
                    },
                }
            },
        }
    }
}

/// Freeing what the children of node `b` from `i` on map, after `acc` blocks.
pub open spec fn children_freed(
    v: Vol,
    p: Pool,
    b: Seq<u8>,
    level: int,
    i: int,
    acc: int,
) -> (Pool, Result<int, FsError>)
    decreases level, 2int, 64 - i,
{
    if i >= 64 {
        (p, Ok(acc))
    } else {
        let (p1, r1) = child_freed(v, p, treenode::node_at(b, i), level);
        match r1 {
            Err(e) => (p1, Err(e)),
            Ok(k) => match plus(acc, k) {
                Err(e) => (p1, Err(e)),
                Ok(sum) => children_freed(v, p1, b, level, i + 1, sum),
            },
        }
    }
}

/// Freeing the extents from `k` on.
pub open spec fn extents_freed(v: Vol, p: Pool, es: Seq<Extent>, k: int) -> (
    Pool,
    Result<(), FsError>,
)
    decreases es.len() - k,
{
    if k >= es.len() {
        (p, Ok(()))
    } else {
        let (p1, r1) = allocator::freed(v, p, es[k].blk, es[k].blocks as int);
        match r1 {
            Err(e) => (p1, Err(e)),
            Ok(_) => extents_freed(v, p1, es, k + 1),
        }
    }
}

/// Freeing what the children of root `pl` from `i` on map.
pub open spec fn root_freed(v: Vol, p: Pool, pl: Seq<u8>, i: int) -> (Pool, Result<(), FsError>)
    decreases ROOT_FANOUT - i,
{
    if i >= ROOT_FANOUT {
        (p, Ok(()))
    } else {
        let (p1, r1) = child_freed(v, p, treenode::root_at(pl, i), pl[0] as int);
        match r1 {
            Err(e) => (p1, Err(e)),
            Ok(_) => root_freed(v, p1, pl, i + 1),
        }
    }
}

/// Freeing every block that a mapping owns.
pub open spec fn all_freed(v: Vol, p: Pool, m: Mp) -> (Pool, Result<(), FsError>) {
    if m.format == FMT_EMPTY || m.format == FMT_EMBED {
        (p, Ok(()))
    } else if m.format == FMT_EXTENT {
        extents_freed(v, p, inode::extents_of(m.payload), 0)
    } else if m.format != FMT_TREE {
        (p, Err(FsError::CannotFree(m.format)))
    } else if m.payload[0] > MAX_LEVEL {
        (p, Err(FsError::Corrupt))
    } else {
        root_freed(v, p, m.payload, 0)
    }
}

// --- truncation ---------------------------------------------------------------

/// Trimming a run of `blocks` blocks to at least `keep`, at a granule
/// boundary: the length kept.
pub open spec fn run_cut(v: Vol, p: Pool, addr: u64, blocks: int, keep: int) -> (
    Pool,
    Result<int, FsError>,
) {
    if keep >= blocks {
        (p, Ok(blocks))
    } else {
        match granule(v, p.t, addr) {
            Err(e) => (p, Err(e)),
            Ok(g) => {
                let up = fmt::ceil_div(keep, g) * g;
                if up >= blocks {
                    (p, Ok(blocks))
                } else if addr + up > u64::MAX {
                    (p, Err(FsError::Corrupt))
                } else {
                    let (p1, r1) = allocator::freed(v, p, (addr + up) as u64, blocks - up);
                    match r1 {
                        Err(e) => (p1, Err(e)),
                        Ok(_) => (p1, Ok(up)),
                    }
                }
            },
        }
    }
}

/// A child that maps nothing.
pub open spec fn no_child() -> Child {
    Child { st: CELL_FREE, blocks: 0, addr: 0 }
}

/// Every child of the node is a hole.
pub open spec fn node_empty(b: Seq<u8>) -> bool {
    forall|i: int| 0 <= i < 64 ==> (#[trigger] treenode::node_at(b, i)).st == CELL_FREE
}

/// Cutting a child of level `level`, whose range starts at `cs`, at `cutoff`,
/// after `acc` blocks freed: the child that replaces it, if it changed, and
/// the blocks freed.
pub open spec fn child_cut(
    v: Vol,
    p: Pool,
    ch: Child,
    level: int,
    cs: int,
    cutoff: int,
    acc: int,
) -> (Pool, Result<(Option<Child>, int), FsError>)
    decreases level, 1int, 0int,
{
    if cs >= cutoff {
        if ch.st == CELL_FREE {
            (p, Ok((None, acc)))
        } else {
            let (p1, r1) = child_freed(v, p, ch, level);
            match r1 {
                Err(e) => (p1, Err(e)),
                Ok(k) => match plus(acc, k) {
                    Err(e) => (p1, Err(e)),
                    Ok(sum) => (p1, Ok((Some(no_child()), sum))),
                },
            }
        }
    } else if cs + treenode::cover(level) <= cutoff || ch.st == CELL_FREE {
        (p, Ok((None, acc)))
    } else if ch.st == CELL_FULL {
        let (p1, r1) = run_cut(v, p, ch.addr, ch.blocks as int, cutoff - cs);
        match r1 {
            Err(e) => (p1, Err(e)),
            Ok(kept) => match plus(acc, ch.blocks - kept) {
                Err(e) => (p1, Err(e)),
                Ok(sum) => (
                    p1,
                    Ok(
                        (
                            if kept == ch.blocks {
                                None
                            } else {
                                Some(Child { blocks: kept as u32, ..ch })
                            },
                            sum,
                        ),
                    ),
                ),
            },
        }
    } else if ch.st != CELL_REFINED {
        (p, Err(FsError::ChildState(ch.st)))
    } else if level <= 0 {
        (p, Err(FsError::Corrupt))
    } else {
        match treenode::node_level_of(v, p.t, ch.addr, level - 1) {
            Err(e) => (p, Err(e)),
            Ok(b) => {
                let (p1, r1) = children_cut(v, p, b, level - 1, cs, cutoff, 0, acc, false);
                match r1 {
                    Err(e) => (p1, Err(e)),
                    Ok((b1, changed, sum)) => if node_empty(b1) {
                        // coarsen: the node emptied
                        let (p2, r2) = allocator::freed(v, p1, ch.addr, 1);
                        match r2 {
                            Err(e) => (p2, Err(e)),
                            Ok(_) => (p2, Ok((Some(no_child()), sum))),
                        }
                    } else if changed {
                        (
                            Pool { t: treenode::node_to(p1.t, ch.addr, b1), ..p1 },
                            Ok((None, sum)),
                        )
                    } else {
                        (p1, Ok((None, sum)))
                    },
                }
            },
        }
    }
}

/// Cutting the children of node `b` from `i` on: the node, whether it
/// changed, and the blocks freed.
pub open spec fn children_cut(
    v: Vol,
    p: Pool,
    b: Seq<u8>,
    level: int,
    ns: int,
    cutoff: int,
    i: int,
    acc: int,
    changed: bool,
) -> (Pool, Result<(Seq<u8>, bool, int), FsError>)
    decreases level, 2int, 64 - i,
{
    if i >= 64 {
        (p, Ok((b, changed, acc)))
    } else {
        let (p1, r1) = child_cut(
            v,
            p,
            treenode::node_at(b, i),
            level,
            ns + i * treenode::cover(level),
            cutoff,
            acc,
        );
        match r1 {
            Err(e) => (p1, Err(e)),
            Ok((None, sum)) => children_cut(v, p1, b, level, ns, cutoff, i + 1, sum, changed),
            Ok((Some(ch), sum)) => children_cut(
                v,
                p1,
                treenode::node_with(b, i, ch),
                level,
                ns,
                cutoff,
                i + 1,
                sum,
                true,
            ),
        }
    }
}

/// `child_cut`, taken as one step.
#[verifier::opaque]
pub open spec fn child_step(
    v: Vol,
    p: Pool,
    ch: Child,
    level: int,
    cs: int,
    cutoff: int,
    acc: int,
) -> (Pool, Result<(Option<Child>, int), FsError>) {
    child_cut(v, p, ch, level, cs, cutoff, acc)
}

/// `children_cut`, taken as one step.
#[verifier::opaque]
pub open spec fn children_step(
    v: Vol,
    p: Pool,
    b: Seq<u8>,
    level: int,
    ns: int,
    cutoff: int,
    i: int,
    acc: int,
    changed: bool,
) -> (Pool, Result<(Seq<u8>, bool, int), FsError>) {
    children_cut(v, p, b, level, ns, cutoff, i, acc, changed)
}

/// Cutting the children of a node goes child by child.
proof fn lemma_children_step(
    v: Vol,
    p: Pool,
    b: Seq<u8>,
    level: int,
    ns: int,
    cutoff: int,
    i: int,
    acc: int,
    changed: bool,
)
    ensures
        children_step(v, p, b, level, ns, cutoff, i, acc, changed) == if i >= 64 {
            (p, Ok((b, changed, acc)))
        } else {
            let (p1, r1) = child_step(
                v,
                p,
                treenode::node_at(b, i),
                level,
                ns + i * treenode::cover(level),
                cutoff,
                acc,
            );
            match r1 {
                Err(e) => (p1, Err(e)),
                Ok((None, sum)) => children_step(
                    v,
                    p1,
                    b,
                    level,
                    ns,
                    cutoff,
                    i + 1,
                    sum,
                    changed,
                ),
                Ok((Some(ch), sum)) => children_step(
                    v,
                    p1,
                    treenode::node_with(b, i, ch),
                    level,
                    ns,
                    cutoff,
                    i + 1,
                    sum,
                    true,
                ),
            }
        },
{
    reveal(child_step);
    reveal(children_step);
}

/// Cutting the children of root `pl` from `i` on.
pub open spec fn root_cut(v: Vol, p: Pool, pl: Seq<u8>, level: int, cutoff: int, i: int, acc: int) -> (
    Pool,
    Result<(Seq<u8>, int), FsError>,
)
    decreases ROOT_FANOUT - i,
{
    if i >= ROOT_FANOUT {
        (p, Ok((pl, acc)))
    } else {
        let (p1, r1) = child_cut(
            v,
            p,
            treenode::root_at(pl, i),
            level,
            i * treenode::cover(level),
            cutoff,
            acc,
        );
        match r1 {
            Err(e) => (p1, Err(e)),
            Ok((None, sum)) => root_cut(v, p1, pl, level, cutoff, i + 1, sum),
            Ok((Some(ch), sum)) => root_cut(
                v,
                p1,
                treenode::root_with(pl, i, ch),
                level,
                cutoff,
                i + 1,
                sum,
            ),
        }
    }
}

/// Cutting the extents from `k` on, `keep` being those kept so far.
pub open spec fn extents_cut(
    v: Vol,
    p: Pool,
    es: Seq<Extent>,
    cutoff: int,
    k: int,
    keep: Seq<Extent>,
    acc: int,
) -> (Pool, Result<(Seq<Extent>, int), FsError>)
    decreases es.len() - k,
{
    if k >= es.len() {
        (p, Ok((keep, acc)))
    } else {
        let e = es[k];
        if e.file_block >= cutoff {
            let (p1, r1) = allocator::freed(v, p, e.blk, e.blocks as int);
            match r1 {
                Err(x) => (p1, Err(x)),
                Ok(_) => extents_cut(v, p1, es, cutoff, k + 1, keep, acc + e.blocks),
            }
        } else if e.file_block + e.blocks > cutoff {
            let (p1, r1) = run_cut(v, p, e.blk, e.blocks as int, cutoff - e.file_block);
            match r1 {
                Err(x) => (p1, Err(x)),
                Ok(kept) => extents_cut(
                    v,
                    p1,
                    es,
                    cutoff,
                    k + 1,
                    keep.push(Extent { blocks: kept as u32, ..e }),
                    acc + (e.blocks - kept),
                ),
            }
        } else {
            extents_cut(v, p, es, cutoff, k + 1, keep.push(e), acc)
        }
    }
}

/// Freeing the mapping beyond `cutoff` file blocks: the mapping left and the
/// data blocks freed.
pub open spec fn truncated(v: Vol, p: Pool, m: Mp, cutoff: int) -> (Pool, Mp, Result<int, FsError>) {
    if m.format == FMT_EMPTY || m.format == FMT_EMBED {
        (p, m, Ok(0))
    } else if m.format == FMT_EXTENT {
        let (p1, r1) = extents_cut(
            v,
            p,
            inode::extents_of(m.payload),
            cutoff,
            0,
            Seq::empty(),
            0,
        );
        match r1 {
            Err(e) => (p1, m, Err(e)),
            Ok((keep, n)) => (p1, Mp { payload: inode::extents_image(keep), ..m }, Ok(n)),
        }
    } else if m.format != FMT_TREE {
        (p, m, Err(FsError::CannotTruncate(m.format)))
    } else if m.payload[0] > MAX_LEVEL {
        (p, m, Err(FsError::Corrupt))
    } else {
        let (p1, r1) = root_cut(v, p, m.payload, m.payload[0] as int, cutoff, 0, 0);
        match r1 {
            Err(e) => (p1, m, Err(e)),
            Ok((pl, n)) => (p1, Mp { payload: pl, ..m }, Ok(n)),
        }
    }
}

impl Gofs {
    /// The allocation unit that block `addr` was allocated in.
    pub fn granule_at(&self, t: &Txn, addr: u64) -> (r: Result<u64, FsError>)
        requires
            self.wf(),
            t.wf(self.sb.blocksize),
        ensures
            match r {
                Ok(g) => granule(self.vol(), t@, addr) == Ok::<int, FsError>(g as int) && (g == 1
                    || g == 16 || g == 256),
                Err(e) => granule(self.vol(), t@, addr) == Err::<int, FsError>(e),
            },
    {
        proof {
            reveal(granule);
        }
        let (ag, local) = blk_split(addr);
        let hdr = self.read_ag_header_txn(t, ag)?;
        let c = (local / CELL_BLOCKS) as u64;
        let st = self.rt_state(t, &hdr, c)?;
        if st == CELL_FULL {
            return Ok(CELL_BLOCKS as u64);
        }
        if st != CELL_REFINED {
            return Err(FsError::CellState { ag, cell: c, state: st });
        }
        let l0 = self.rt_ref(t, &hdr, c)?;
        let rec = self.rec_read(t, ag, l0)?;
        let s = rec_state(&rec, (local % CELL_BLOCKS) / ALLOC_FANOUT);
        if s == CELL_FULL {
            Ok(ALLOC_FANOUT as u64)
        } else if s == CELL_REFINED {
            Ok(1)
        } else {
            Err(FsError::SubcellState(s))
        }
    }

    /// Release what a child maps. Returns the number of data blocks freed.
    fn free_child(&mut self, t: &mut Txn, ch: Child, level: u8) -> (r: Result<u64, FsError>)
        requires
            old(self).wf(),
            old(self).sb.blocksize >= 2048,
            old(t).wf(old(self).sb.blocksize),
            level <= MAX_LEVEL,
        ensures
            final(self).wf(),
            final(t).wf(final(self).sb.blocksize),
            allocator::only_counters(*old(self), *final(self)),
            ({
                let (p1, r1) = child_freed(
                    old(self).vol(),
                    allocator::pool_of(*old(self), *old(t)),
                    ch,
                    level as int,
                );
                &&& p1 == allocator::pool_of(*final(self), *final(t))
                &&& match r {
                    Ok(n) => r1 == Ok::<int, FsError>(n as int),
                    Err(e) => r1 == Err::<int, FsError>(e),
                }
            }),
        decreases level,
    {
        if ch.st == CELL_FREE {
            return Ok(0);
        }
        if ch.st == CELL_FULL {
            self.free_extent(t, ch.addr, ch.blocks as u64)?;
            return Ok(ch.blocks as u64);
        }
        if ch.st != CELL_REFINED {
            return Err(FsError::ChildState(ch.st));
        }
        if level == 0 {
            return Err(FsError::Corrupt);
        }
        let buf = self.node_read_level(t, ch.addr, (level - 1) as u8)?;
        let mut freed: u64 = 0;
        let mut i: usize = 0;
        let ghost v = self.vol();
        let ghost want = children_freed(
            v,
            allocator::pool_of(*self, *t),
            buf@,
            level - 1,
            0,
            0,
        );
        while i < 64
            invariant
                i <= 64,
                buf@.len() >= 2048,
                self.wf(),
                self.sb.blocksize >= 2048,
                t.wf(self.sb.blocksize),
                self.vol() == v,
                v == old(self).vol(),
                0 < level <= MAX_LEVEL,
                ch.st == CELL_REFINED,
                allocator::only_counters(*old(self), *self),
                treenode::node_level_of(v, old(t)@, ch.addr, level - 1) == Ok::<
                    Seq<u8>,
                    FsError,
                >(buf@),
                want == children_freed(
                    v,
                    allocator::pool_of(*old(self), *old(t)),
                    buf@,
                    level - 1,
                    0,
                    0,
                ),
                want == children_freed(
                    v,
                    allocator::pool_of(*self, *t),
                    buf@,
                    level - 1,
                    i as int,
                    freed as int,
                ),
            decreases 64 - i,
        {
            let k = self.free_child(t, node_get(&buf, i), (level - 1) as u8)?;
            freed = match freed.checked_add(k) {
                Some(s) => s,
                None => return Err(FsError::Corrupt),
            };
            i = i + 1;
        }
        self.free_extent(t, ch.addr, 1)?;  // the node block itself
        Ok(freed)
    }

    /// Release every block that a mapping owns. Resets the inode to empty.
    #[verifier::loop_isolation(false)]
    pub fn map_free_all(&mut self, t: &mut Txn, inode: &mut Inode) -> (r: Result<(), FsError>)
        requires
            old(self).wf(),
            old(self).sb.blocksize >= 2048,
            old(t).wf(old(self).sb.blocksize),
        ensures
            final(self).wf(),
            final(t).wf(final(self).sb.blocksize),
            allocator::only_counters(*old(self), *final(self)),
            (allocator::pool_of(*final(self), *final(t)), r) == all_freed(
                old(self).vol(),
                allocator::pool_of(*old(self), *old(t)),
                mapping::mp_of(*old(inode)),
            ),
            r is Err ==> *final(inode) == *old(inode),
            r is Ok ==> final(inode).payload@ == fmt::zeros(128) && *final(inode) == (Inode {
                format: FMT_EMPTY,
                nblocks: 0,
                size: 0,
                payload: final(inode).payload,
                ..*old(inode)
            }),
    {
        let ghost v = self.vol();
        let ghost p0 = allocator::pool_of(*self, *t);
        if inode.format == FMT_EXTENT {
            let es = extents_parse(&inode.payload);
            let mut k: usize = 0;
            while k < es.len()
                invariant
                    k <= es@.len(),
                    self.wf(),
                    t.wf(self.sb.blocksize),
                    self.vol() == v,
                    allocator::only_counters(*old(self), *self),
                    extents_freed(v, p0, es@, 0) == extents_freed(
                        v,
                        allocator::pool_of(*self, *t),
                        es@,
                        k as int,
                    ),
                decreases es@.len() - k,
            {
                self.free_extent(t, es[k].blk, es[k].blocks as u64)?;
                k = k + 1;
            }
        } else if inode.format == FMT_TREE {
            let level = root_level(&inode.payload);
            if level > MAX_LEVEL {
                return Err(FsError::Corrupt);
            }
            let payload = inode.payload;
            let mut i: usize = 0;
            while i < ROOT_FANOUT
                invariant
                    i <= 6,
                    self.wf(),
                    t.wf(self.sb.blocksize),
                    self.vol() == v,
                    allocator::only_counters(*old(self), *self),
                    root_freed(v, p0, payload@, 0) == root_freed(
                        v,
                        allocator::pool_of(*self, *t),
                        payload@,
                        i as int,
                    ),
                decreases 6 - i,
            {
                let _n = self.free_child(t, root_get(&payload, i), level)?;
                i = i + 1;
            }
        } else if inode.format != FMT_EMPTY && inode.format != FMT_EMBED {
            return Err(FsError::CannotFree(inode.format));
        }
        inode.format = FMT_EMPTY;
        let z = [0u8; 128];
        assert(z@ =~= fmt::zeros(128));
        inode.payload = z;
        inode.nblocks = 0;
        inode.size = 0;
        Ok(())
    }

    /// Trim a run to at least `keep` blocks, freeing the suffix at the
    /// allocation-granule boundary. Returns the kept length.
    fn trim_run(&mut self, t: &mut Txn, addr: u64, blocks: u32, keep: u64) -> (r: Result<
        u32,
        FsError,
    >)
        requires
            old(self).wf(),
            old(t).wf(old(self).sb.blocksize),
        ensures
            final(self).wf(),
            final(t).wf(final(self).sb.blocksize),
            allocator::only_counters(*old(self), *final(self)),
            ({
                let (p1, r1) = run_cut(
                    old(self).vol(),
                    allocator::pool_of(*old(self), *old(t)),
                    addr,
                    blocks as int,
                    keep as int,
                );
                &&& p1 == allocator::pool_of(*final(self), *final(t))
                &&& match r {
                    Ok(n) => r1 == Ok::<int, FsError>(n as int) && n <= blocks,
                    Err(e) => r1 == Err::<int, FsError>(e),
                }
            }),
    {
        let n = blocks as u64;
        if keep >= n {
            return Ok(blocks);
        }
        let g = self.granule_at(t, addr)?;
        let q = div_up(keep, g);
        proof {
            fmt::lemma_ceil_div(keep as int, g as int);
            assert(q * g < keep + g) by (nonlinear_arith)
                requires
                    keep > 0 ==> (q - 1) * g < keep,
                    keep == 0 ==> q == 0,
                    g > 0,
            ;
        }
        let up = q * g;
        if up >= n {
            return Ok(blocks);
        }
        let at = match addr.checked_add(up) {
            Some(a) => a,
            None => return Err(FsError::Corrupt),
        };
        self.free_extent(t, at, n - up)?;
        Ok(up as u32)
    }

    /// Trim the children of a node. Returns the node, whether it changed, and
    /// the blocks freed.
    fn trim_node(
        &mut self,
        t: &mut Txn,
        node: Vec<u8>,
        level: u8,
        node_start: u64,
        cutoff: u64,
        acc: u64,
    ) -> (r: Result<(Vec<u8>, bool, u64), FsError>)
        requires
            old(self).wf(),
            old(self).sb.blocksize >= 2048,
            old(t).wf(old(self).sb.blocksize),
            level < MAX_LEVEL,
            node_start + treenode::cover(level + 1) <= TREE_LIMIT,
            node@.len() == old(self).sb.blocksize,
        ensures
            final(self).wf(),
            final(t).wf(final(self).sb.blocksize),
            allocator::only_counters(*old(self), *final(self)),
            ({
                let (p1, r1) = children_step(
                    old(self).vol(),
                    allocator::pool_of(*old(self), *old(t)),
                    node@,
                    level as int,
                    node_start as int,
                    cutoff as int,
                    0,
                    acc as int,
                    false,
                );
                &&& p1 == allocator::pool_of(*final(self), *final(t))
                &&& match r {
                    Ok((b, ch, n)) => r1 == Ok::<(Seq<u8>, bool, int), FsError>((b@, ch, n as int))
                        && b@.len() == final(self).sb.blocksize,
                    Err(e) => r1 == Err::<(Seq<u8>, bool, int), FsError>(e),
                }
            }),
        decreases level, 2int,
    {
        let mut buf = node;
        let c = cov(level);
        let mut freed = acc;
        let mut changed = false;
        let mut i: usize = 0;
        let ghost v = self.vol();
        let ghost want = children_step(
            v,
            allocator::pool_of(*self, *t),
            buf@,
            level as int,
            node_start as int,
            cutoff as int,
            0,
            acc as int,
            false,
        );
        while i < 64
            invariant
                i <= 64,
                self.wf(),
                self.sb.blocksize >= 2048,
                t.wf(self.sb.blocksize),
                self.vol() == v,
                v == old(self).vol(),
                level < MAX_LEVEL,
                c == treenode::cover(level as int),
                c >= 1,
                node_start + 64 * c <= TREE_LIMIT,
                buf@.len() == self.sb.blocksize,
                allocator::only_counters(*old(self), *self),
                want == children_step(
                    old(self).vol(),
                    allocator::pool_of(*old(self), *old(t)),
                    node@,
                    level as int,
                    node_start as int,
                    cutoff as int,
                    0,
                    acc as int,
                    false,
                ),
                want == children_step(
                    v,
                    allocator::pool_of(*self, *t),
                    buf@,
                    level as int,
                    node_start as int,
                    cutoff as int,
                    i as int,
                    freed as int,
                    changed,
                ),
            decreases 64 - i,
        {
            proof {
                extent::lemma_child_range(i as int, c as int, 64);
            }
            proof {
                lemma_children_step(
                    v,
                    allocator::pool_of(*self, *t),
                    buf@,
                    level as int,
                    node_start as int,
                    cutoff as int,
                    i as int,
                    freed as int,
                    changed,
                );
            }
            let ch = node_get(&buf, i);
            let at = node_start + i as u64 * c;
            assert(at == node_start + i * treenode::cover(level as int));
            let (next, n) = self.trim_child(t, ch, level, at, cutoff, freed)?;
            freed = n;
            if let Some(nc) = next {
                node_set(&mut buf, i, nc);
                changed = true;
            }
            i = i + 1;
        }
        proof {
            lemma_children_step(
                v,
                allocator::pool_of(*self, *t),
                buf@,
                level as int,
                node_start as int,
                cutoff as int,
                64,
                freed as int,
                changed,
            );
        }
        Ok((buf, changed, freed))
    }

    /// Cut one child at `cutoff`. Returns the child that replaces it, if it
    /// changed, and the blocks freed so far.
    fn trim_child(
        &mut self,
        t: &mut Txn,
        ch: Child,
        level: u8,
        child_start: u64,
        cutoff: u64,
        acc: u64,
    ) -> (r: Result<(Option<Child>, u64), FsError>)
        requires
            old(self).wf(),
            old(self).sb.blocksize >= 2048,
            old(t).wf(old(self).sb.blocksize),
            level <= MAX_LEVEL,
            child_start + treenode::cover(level as int) <= TREE_LIMIT,
        ensures
            final(self).wf(),
            final(t).wf(final(self).sb.blocksize),
            allocator::only_counters(*old(self), *final(self)),
            ({
                let (p1, r1) = child_step(
                    old(self).vol(),
                    allocator::pool_of(*old(self), *old(t)),
                    ch,
                    level as int,
                    child_start as int,
                    cutoff as int,
                    acc as int,
                );
                &&& p1 == allocator::pool_of(*final(self), *final(t))
                &&& match r {
                    Ok((c, n)) => r1 == Ok::<(Option<Child>, int), FsError>((c, n as int)) && (
                    c matches Some(x) ==> x.st < 4),
                    Err(e) => r1 == Err::<(Option<Child>, int), FsError>(e),
                }
            }),
        decreases level, 1int,
    {
        proof {
            reveal(child_step);
            reveal(children_step);
        }
        let c = cov(level);
        if child_start >= cutoff {
            if ch.st == CELL_FREE {
                return Ok((None, acc));
            }
            let k = self.free_child(t, ch, level)?;
            return match acc.checked_add(k) {
                Some(n) => Ok((Some(Child { st: CELL_FREE, blocks: 0, addr: 0 }), n)),
                None => Err(FsError::Corrupt),
            };
        }
        if child_start + c <= cutoff || ch.st == CELL_FREE {
            return Ok((None, acc));
        }
        if ch.st == CELL_FULL {
            let kept = self.trim_run(t, ch.addr, ch.blocks, cutoff - child_start)?;
            return match acc.checked_add((ch.blocks - kept) as u64) {
                Some(n) => Ok(
                    (if kept == ch.blocks { None } else { Some(Child { blocks: kept, ..ch }) }, n),
                ),
                None => Err(FsError::Corrupt),
            };
        }
        if ch.st != CELL_REFINED {
            return Err(FsError::ChildState(ch.st));
        }
        if level == 0 {
            return Err(FsError::Corrupt);
        }
        let buf = self.node_read_level(t, ch.addr, level - 1)?;
        let (buf, changed, n) = self.trim_node(t, buf, level - 1, child_start, cutoff, acc)?;
        if all_free(&buf) {
            // coarsen: the node emptied
            self.free_extent(t, ch.addr, 1)?;
            return Ok((Some(Child { st: CELL_FREE, blocks: 0, addr: 0 }), n));
        }
        if changed {
            self.node_write(t, ch.addr, buf);
        }
        Ok((None, n))
    }

    /// Free the mapping beyond `cutoff` file blocks: whole children beyond the
    /// cutoff, and the granule-aligned suffix of a straddling run. Kept slack
    /// inside the last granule is zeroed by the caller. Returns data blocks
    /// freed.
    pub fn map_truncate(&mut self, t: &mut Txn, inode: &mut Inode, cutoff: u64) -> (r: Result<
        u64,
        FsError,
    >)
        requires
            old(self).wf(),
            old(self).sb.blocksize >= 2048,
            old(t).wf(old(self).sb.blocksize),
        ensures
            final(self).wf(),
            final(t).wf(final(self).sb.blocksize),
            allocator::only_counters(*old(self), *final(self)),
            extent::only_mapping(*old(inode), *final(inode)),
            ({
                let (p1, m1, r1) = truncated(
                    old(self).vol(),
                    allocator::pool_of(*old(self), *old(t)),
                    mapping::mp_of(*old(inode)),
                    cutoff as int,
                );
                &&& p1 == allocator::pool_of(*final(self), *final(t))
                &&& m1 == mapping::mp_of(*final(inode))
                &&& match r {
                    Ok(n) => r1 == Ok::<int, FsError>(n as int),
                    Err(e) => r1 == Err::<int, FsError>(e),
                }
            }),
    {
        if inode.format == FMT_EMPTY || inode.format == FMT_EMBED {
            return Ok(0);
        }
        if inode.format == FMT_EXTENT {
            let es = extents_parse(&inode.payload);
            let (keep, n) = self.trim_extents(t, &es, cutoff)?;
            if let Err(e) = extents_store(&mut inode.payload, &keep) {
                return Err(FsError::Encode(e));
            }
            return Ok(n);
        }
        if inode.format != FMT_TREE {
            return Err(FsError::CannotTruncate(inode.format));
        }
        if root_level(&inode.payload) > MAX_LEVEL {
            return Err(FsError::Corrupt);
        }
        let (payload, n) = self.trim_root(t, inode.payload, cutoff)?;
        inode.payload = payload;
        Ok(n)
    }

    fn trim_extents(&mut self, t: &mut Txn, es: &Vec<Extent>, cutoff: u64) -> (r: Result<
        (Vec<Extent>, u64),
        FsError,
    >)
        requires
            old(self).wf(),
            old(t).wf(old(self).sb.blocksize),
            es@.len() <= 6,
        ensures
            final(self).wf(),
            final(t).wf(final(self).sb.blocksize),
            allocator::only_counters(*old(self), *final(self)),
            ({
                let (p1, r1) = extents_cut(
                    old(self).vol(),
                    allocator::pool_of(*old(self), *old(t)),
                    es@,
                    cutoff as int,
                    0,
                    Seq::empty(),
                    0,
                );
                &&& p1 == allocator::pool_of(*final(self), *final(t))
                &&& match r {
                    Ok((k, n)) => r1 == Ok::<(Seq<Extent>, int), FsError>((k@, n as int))
                        && k@.len() <= 6,
                    Err(e) => r1 == Err::<(Seq<Extent>, int), FsError>(e),
                }
            }),
    {
        let mut keep: Vec<Extent> = Vec::new();
        let mut freed: u64 = 0;
        let mut k: usize = 0;
        let ghost v = self.vol();
        assert(keep@ =~= Seq::<Extent>::empty());
        while k < es.len()
            invariant
                k <= es@.len() <= 6,
                keep@.len() <= k,
                freed <= k * 0x1_0000_0000,
                self.wf(),
                t.wf(self.sb.blocksize),
                self.vol() == v,
                v == old(self).vol(),
                allocator::only_counters(*old(self), *self),
                extents_cut(
                    v,
                    allocator::pool_of(*old(self), *old(t)),
                    es@,
                    cutoff as int,
                    0,
                    Seq::empty(),
                    0,
                ) == extents_cut(
                    v,
                    allocator::pool_of(*self, *t),
                    es@,
                    cutoff as int,
                    k as int,
                    keep@,
                    freed as int,
                ),
            decreases es@.len() - k,
        {
            let e = es[k];
            if e.file_block >= cutoff {
                self.free_extent(t, e.blk, e.blocks as u64)?;
                freed = freed + e.blocks as u64;
            } else if cutoff - e.file_block < e.blocks as u64 {
                let kept = self.trim_run(t, e.blk, e.blocks, cutoff - e.file_block)?;
                keep.push(Extent { blocks: kept, ..e });
                freed = freed + (e.blocks - kept) as u64;
            } else {
                keep.push(e);
            }
            k = k + 1;
        }
        Ok((keep, freed))
    }

    fn trim_root(&mut self, t: &mut Txn, payload: [u8; 128], cutoff: u64) -> (r: Result<
        ([u8; 128], u64),
        FsError,
    >)
        requires
            old(self).wf(),
            old(self).sb.blocksize >= 2048,
            old(t).wf(old(self).sb.blocksize),
            payload@[0] <= MAX_LEVEL,
        ensures
            final(self).wf(),
            final(t).wf(final(self).sb.blocksize),
            allocator::only_counters(*old(self), *final(self)),
            ({
                let (p1, r1) = root_cut(
                    old(self).vol(),
                    allocator::pool_of(*old(self), *old(t)),
                    payload@,
                    payload@[0] as int,
                    cutoff as int,
                    0,
                    0,
                );
                &&& p1 == allocator::pool_of(*final(self), *final(t))
                &&& match r {
                    Ok((pl, n)) => r1 == Ok::<(Seq<u8>, int), FsError>((pl@, n as int)),
                    Err(e) => r1 == Err::<(Seq<u8>, int), FsError>(e),
                }
            }),
    {
        let level = root_level(&payload);
        let mut p = payload;
        let c = cov(level);
        let mut freed: u64 = 0;
        let mut i: usize = 0;
        let ghost v = self.vol();
        while i < ROOT_FANOUT
            invariant
                i <= 6,
                self.wf(),
                self.sb.blocksize >= 2048,
                t.wf(self.sb.blocksize),
                self.vol() == v,
                v == old(self).vol(),
                level <= MAX_LEVEL,
                level == payload@[0],
                c == treenode::cover(level as int),
                1 <= c <= 0x1000_0000_0000_0000,
                allocator::only_counters(*old(self), *self),
                root_cut(
                    v,
                    allocator::pool_of(*old(self), *old(t)),
                    payload@,
                    level as int,
                    cutoff as int,
                    0,
                    0,
                ) == root_cut(
                    v,
                    allocator::pool_of(*self, *t),
                    p@,
                    level as int,
                    cutoff as int,
                    i as int,
                    freed as int,
                ),
            decreases 6 - i,
        {
            proof {
                extent::lemma_child_range(i as int, c as int, 6);
            }
            proof {
                reveal(child_step);
            }
            let ch = root_get(&p, i);
            let (next, n) = self.trim_child(t, ch, level, i as u64 * c, cutoff, freed)?;
            freed = n;
            if let Some(nc) = next {
                root_set(&mut p, i, nc);
            }
            i = i + 1;
        }
        Ok((p, freed))
    }
}

/// Whether every child of the node is a hole.
fn all_free(b: &Vec<u8>) -> (r: bool)
    requires
        b@.len() >= 2048,
    ensures
        r == node_empty(b@),
{
    let mut i: usize = 0;
    while i < 64
        invariant
            i <= 64,
            b@.len() >= 2048,
            forall|k: int| 0 <= k < i ==> (#[trigger] treenode::node_at(b@, k)).st == CELL_FREE,
        decreases 64 - i,
    {
        let ch = node_get(b, i);
        assert(ch == treenode::node_at(b@, i as int));
        if ch.st != CELL_FREE {
            return false;
        }
        i = i + 1;
    }
    true
}

} // verus!
