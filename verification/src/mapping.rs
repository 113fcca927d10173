//! Where the blocks of a file are: lookup in inline extents and extent trees.

use crate::error::FsError;
use crate::fmt::{
    CELL_FREE, CELL_FULL, CELL_REFINED, FMT_EMBED, FMT_EMPTY, FMT_EXTENT, FMT_TREE, ROOT_FANOUT,
};
use crate::fs::Gofs;
use crate::inode::{extents_parse, Extent, Inode};
use crate::treenode::{cov, node_get, root_get, root_level, Child, MAX_LEVEL};
use crate::txn::Txn;
use crate::vol::Vol;
use vstd::prelude::*;

use crate::inode;
use crate::treenode;

verus! {

/// A mapping result starting at some file block.
#[derive(Debug, Clone, Copy, PartialEq, Eq, Structural)]
pub enum Mapping {
    /// A hole of that many blocks.
    Hole(u64),
    /// A contiguous run.
    Run { blk: u64, len: u64 },
}

/// What the mapping of a file depends on in its inode.
#[verifier::ext_equal]
pub struct Mp {
    pub format: u8,
    pub payload: Seq<u8>,
}

pub open spec fn mp_of(i: Inode) -> Mp {
    Mp { format: i.format, payload: i.payload@ }
}

/// Offset `rel` into a child that maps a run of `blocks` blocks at `addr` and
/// covers `c` blocks.
pub open spec fn run_at(blocks: int, addr: u64, rel: int, c: int) -> Result<Mapping, FsError> {
    if rel >= blocks {
        Ok(Mapping::Hole((c - rel) as u64))
    } else if addr + rel > u64::MAX {
        Err(FsError::Corrupt)
    } else {
        Ok(Mapping::Run { blk: (addr + rel) as u64, len: (blocks - rel) as u64 })
    }
}

/// Offset `rel` into the range of a child of level `level`.
pub open spec fn child_map(v: Vol, t: Map<u64, Seq<u8>>, ch: Child, rel: int, level: int) -> Result<
    Mapping,
    FsError,
>
    decreases level,
{
    if ch.st == CELL_FREE {
        Ok(Mapping::Hole((treenode::cover(level) - rel) as u64))
    } else if ch.st == CELL_FULL {
        run_at(ch.blocks as int, ch.addr, rel, treenode::cover(level))
    } else if ch.st != CELL_REFINED {
        Err(FsError::ChildState(ch.st))
    } else if level <= 0 {
        Err(FsError::Corrupt)
    } else {
        match treenode::node_level_of(v, t, ch.addr, level - 1) {
            Err(e) => Err(e),
            Ok(b) => {
                let c = treenode::cover(level - 1);
                child_map(v, t, treenode::node_at(b, rel / c), rel % c, level - 1)
            },
        }
    }
}

/// File block `f` in a tree with root `p`.
pub open spec fn tree_map(v: Vol, t: Map<u64, Seq<u8>>, p: Seq<u8>, f: int) -> Result<
    Mapping,
    FsError,
> {
    let level = p[0] as int;
    let c = treenode::cover(level);
    if level > MAX_LEVEL {
        Err(FsError::Corrupt)
    } else if f / c >= ROOT_FANOUT {
        Ok(Mapping::Hole(u64::MAX))
    } else {
        child_map(v, t, treenode::root_at(p, f / c), f % c, level)
    }
}

/// Whether an extent maps file block `f`.
pub open spec fn covers(e: Extent, f: int) -> bool {
    e.file_block <= f < e.file_block + e.blocks
}

/// File block `f` in the extents from `i` on; `next` is the first file block
/// past `f` that an earlier extent maps.
pub open spec fn extents_map(es: Seq<Extent>, i: int, f: int, next: int) -> Result<
    Mapping,
    FsError,
>
    decreases es.len() - i,
{
    if i >= es.len() {
        Ok(Mapping::Hole((next - f) as u64))
    } else if covers(es[i], f) {
        run_at(es[i].blocks as int, es[i].blk, f - es[i].file_block, 0)
    } else {
        extents_map(
            es,
            i + 1,
            f,
            if f < es[i].file_block < next {
                es[i].file_block as int
            } else {
                next
            },
        )
    }
}

/// The mapping of file block `f`. Runs and holes never cross a child boundary.
pub open spec fn map_of(v: Vol, t: Map<u64, Seq<u8>>, m: Mp, f: int) -> Result<Mapping, FsError> {
    if m.format == FMT_EMPTY || m.format == FMT_EMBED {
        Ok(Mapping::Hole(u64::MAX))
    } else if m.format == FMT_EXTENT {
        extents_map(inode::extents_of(m.payload), 0, f, u64::MAX as int)
    } else if m.format == FMT_TREE {
        tree_map(v, t, m.payload, f)
    } else {
        Err(FsError::NoMapping(m.format))
    }
}

/// Whether file block `f` lies in one of the ranges.
pub open spec fn in_some(fresh: Seq<(u64, u64)>, f: int) -> bool {
    exists|k: int| 0 <= k < fresh.len() && (#[trigger] fresh[k]).0 <= f < fresh[k].0 + fresh[k].1
}

/// The first edge of a range past `f`, if it lies before `lim`; else `lim`.
pub open spec fn next_edge(fresh: Seq<(u64, u64)>, f: int, lim: int, k: int) -> int
    decreases fresh.len() - k,
{
    if k >= fresh.len() {
        lim
    } else {
        let a = fresh[k].0 as int;
        let b = fresh[k].0 + fresh[k].1;
        let l1 = if f < a < lim {
            a
        } else {
            lim
        };
        let l2 = if f < b < l1 {
            b
        } else {
            l1
        };
        next_edge(fresh, f, l2, k + 1)
    }
}

/// The runs that map file blocks `pos` to `end`, after `acc`: file block,
/// address, length, and whether it is among the fresh ranges. A run ends where
/// a fresh range begins or ends.
pub open spec fn runs_from(
    v: Vol,
    t: Map<u64, Seq<u8>>,
    m: Mp,
    fresh: Seq<(u64, u64)>,
    pos: int,
    end: int,
    acc: Seq<(u64, u64, u64, bool)>,
) -> Result<Seq<(u64, u64, u64, bool)>, FsError>
    decreases
            if pos < end {
                end - pos
            } else {
                0
            },
{
    if pos >= end {
        Ok(acc)
    } else {
        match map_of(v, t, m, pos) {
            Err(e) => Err(e),
            Ok(Mapping::Hole(_)) => Err(FsError::HoleAfterEnsure(pos as u64)),
            Ok(Mapping::Run { blk, len }) => {
                let lim = if len < end - pos {
                    pos + len
                } else {
                    end
                };
                let take = next_edge(fresh, pos, lim, 0) - pos;
                if take <= 0 {
                    Ok(acc)
                } else {
                    runs_from(
                        v,
                        t,
                        m,
                        fresh,
                        pos + take,
                        end,
                        acc.push((pos as u64, blk, take as u64, in_some(fresh, pos))),
                    )
                }
            },
        }
    }
}

fn run_in_child(blocks: u64, addr: u64, rel: u64, c: u64) -> (r: Result<Mapping, FsError>)
    requires
        rel >= blocks ==> rel <= c,
    ensures
        r == run_at(blocks as int, addr, rel as int, c as int),
        r matches Ok(Mapping::Run { blk, len }) ==> len > 0,
{
    if rel >= blocks {
        return Ok(Mapping::Hole(c - rel));
    }
    match addr.checked_add(rel) {
        Some(blk) => Ok(Mapping::Run { blk, len: blocks - rel }),
        None => Err(FsError::Corrupt),
    }
}

impl Gofs {
    /// Resolve `rel` within a child of level `level`.
    fn child_lookup(&self, t: &Txn, ch: Child, rel: u64, level: u8) -> (r: Result<
        Mapping,
        FsError,
    >)
        requires
            self.wf(),
            self.sb.blocksize >= 2048,
            t.wf(self.sb.blocksize),
            level <= MAX_LEVEL,
            rel < treenode::cover(level as int),
        ensures
            r == child_map(self.vol(), t@, ch, rel as int, level as int),
            r matches Ok(Mapping::Run { blk, len }) ==> len > 0,
        decreases level,
    {
        let c = cov(level);
        if ch.st == CELL_FREE {
            return Ok(Mapping::Hole(c - rel));
        }
        if ch.st == CELL_FULL {
            return run_in_child(ch.blocks as u64, ch.addr, rel, c);
        }
        if ch.st != CELL_REFINED {
            return Err(FsError::ChildState(ch.st));
        }
        if level == 0 {
            return Err(FsError::Corrupt);
        }
        let buf = self.node_read_level(t, ch.addr, level - 1)?;
        let sub = cov(level - 1);
        proof {
            lemma_child_index(rel as int, sub as int, 64);
        }
        let next = node_get(&buf, (rel / sub) as usize);
        self.child_lookup(t, next, rel % sub, level - 1)
    }

    /// Resolve `fblock` in a file's mapping. Run and hole lengths never cross a
    /// child boundary (callers loop).
    pub fn map_lookup(&self, t: &Txn, inode: &Inode, fblock: u64) -> (r: Result<Mapping, FsError>)
        requires
            self.wf(),
            inode.format == FMT_TREE ==> self.sb.blocksize >= 2048,
            t.wf(self.sb.blocksize),
        ensures
            r == map_of(self.vol(), t@, mp_of(*inode), fblock as int),
            r matches Ok(Mapping::Run { blk, len }) ==> len > 0,
    {
        if inode.format == FMT_EMPTY || inode.format == FMT_EMBED {
            return Ok(Mapping::Hole(u64::MAX));
        }
        if inode.format == FMT_EXTENT {
            let es = extents_parse(&inode.payload);
            let mut next = u64::MAX;
            let mut i: usize = 0;
            while i < es.len()
                invariant
                    i <= es@.len(),
                    fblock <= next,
                    extents_map(es@, 0, fblock as int, u64::MAX as int) == extents_map(
                        es@,
                        i as int,
                        fblock as int,
                        next as int,
                    ),
                    es@ == inode::extents_of(inode.payload@),
                    inode.format == FMT_EXTENT,
                decreases es@.len() - i,
            {
                let e = es[i];
                if fblock >= e.file_block && fblock - e.file_block < e.blocks as u64 {
                    return run_in_child(e.blocks as u64, e.blk, fblock - e.file_block, 0);
                }
                if e.file_block > fblock && e.file_block < next {
                    next = e.file_block;
                }
                i = i + 1;
            }
            return Ok(Mapping::Hole(next - fblock));
        }
        if inode.format == FMT_TREE {
            let level = root_level(&inode.payload);
            if level > MAX_LEVEL {
                return Err(FsError::Corrupt);
            }
            let c = cov(level);
            let i = fblock / c;
            if i >= ROOT_FANOUT as u64 {
                return Ok(Mapping::Hole(u64::MAX));
            }
            let ch = root_get(&inode.payload, i as usize);
            return self.child_lookup(t, ch, fblock % c, level);
        }
        Err(FsError::NoMapping(inode.format))
    }

    /// The runs over a range that is fully mapped.
    pub fn collect_runs(
        &self,
        t: &Txn,
        inode: &Inode,
        fblock: u64,
        n: u64,
        fresh: &Vec<(u64, u64)>,
    ) -> (r: Result<Vec<(u64, u64, u64, bool)>, FsError>)
        requires
            self.wf(),
            self.sb.blocksize >= 2048,
            t.wf(self.sb.blocksize),
            fblock + n <= u64::MAX,
        ensures
            match r {
                Ok(v) => runs_from(
                    self.vol(),
                    t@,
                    mp_of(*inode),
                    fresh@,
                    fblock as int,
                    fblock + n,
                    Seq::empty(),
                ) == Ok::<Seq<(u64, u64, u64, bool)>, FsError>(v@),
                Err(e) => runs_from(
                    self.vol(),
                    t@,
                    mp_of(*inode),
                    fresh@,
                    fblock as int,
                    fblock + n,
                    Seq::empty(),
                ) == Err::<Seq<(u64, u64, u64, bool)>, FsError>(e),
            },
    {
        let mut out: Vec<(u64, u64, u64, bool)> = Vec::new();
        let mut pos = fblock;
        let end = fblock + n;
        assert(out@ =~= Seq::empty());
        while pos < end
            invariant
                pos <= end,
                end == fblock + n,
                self.wf(),
                self.sb.blocksize >= 2048,
                t.wf(self.sb.blocksize),
                runs_from(
                    self.vol(),
                    t@,
                    mp_of(*inode),
                    fresh@,
                    fblock as int,
                    fblock + n,
                    Seq::empty(),
                ) == runs_from(
                    self.vol(),
                    t@,
                    mp_of(*inode),
                    fresh@,
                    pos as int,
                    end as int,
                    out@,
                ),
            decreases end - pos,
        {
            match self.map_lookup(t, inode, pos)? {
                Mapping::Run { blk, len } => {
                    let lim = if len < end - pos { pos + len } else { end };
                    let take = edge_after(fresh, pos, lim) - pos;
                    let is_fresh = among(fresh, pos);
                    out.push((pos, blk, take, is_fresh));
                    pos = pos + take;
                },
                Mapping::Hole(_) => return Err(FsError::HoleAfterEnsure(pos)),
            }
        }
        Ok(out)
    }
}

/// The first edge of a range past `f`, if it lies before `lim`.
fn edge_after(fresh: &Vec<(u64, u64)>, f: u64, lim: u64) -> (r: u64)
    requires
        f < lim,
    ensures
        r == next_edge(fresh@, f as int, lim as int, 0),
        f < r <= lim,
{
    let mut l = lim;
    let mut k: usize = 0;
    while k < fresh.len()
        invariant
            k <= fresh@.len(),
            f < l <= lim,
            next_edge(fresh@, f as int, lim as int, 0) == next_edge(
                fresh@,
                f as int,
                l as int,
                k as int,
            ),
        decreases fresh@.len() - k,
    {
        let (start, len) = fresh[k];
        if f < start && start < l {
            l = start;
        }
        // start + len lies between f and l
        if start < l && len < l - start && f < start + len {
            l = start + len;
        }
        k = k + 1;
    }
    l
}

/// Whether file block `f` lies in one of the ranges.
fn among(fresh: &Vec<(u64, u64)>, f: u64) -> (r: bool)
    ensures
        r == in_some(fresh@, f as int),
{
    let mut k: usize = 0;
    while k < fresh.len()
        invariant
            k <= fresh@.len(),
            forall|j: int|
                0 <= j < k ==> !((#[trigger] fresh@[j]).0 <= f < fresh@[j].0 + fresh@[j].1),
        decreases fresh@.len() - k,
    {
        let (start, len) = fresh[k];
        if f >= start && f - start < len {
            assert(fresh@[k as int].0 <= f < fresh@[k as int].0 + fresh@[k as int].1);
            return true;
        }
        k = k + 1;
    }
    false
}

/// An offset within `n` children of `c` blocks each names one of them.
pub proof fn lemma_child_index(rel: int, c: int, n: int)
    requires
        0 <= rel < n * c,
        c > 0,
    ensures
        0 <= rel / c < n,
        0 <= rel % c < c,
        (rel / c) * c + rel % c == rel,
{
    assert(0 <= rel / c < n && 0 <= rel % c < c && (rel / c) * c + rel % c == rel)
        by (nonlinear_arith)
        requires
            0 <= rel < n * c,
            c > 0,
    ;
}

} // verus!
