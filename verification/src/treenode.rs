//! Extent tree nodes: the layout of the root in the inode payload and of node
//! blocks.
//!
//! Root: level at 0, states of 6 children (2 bits each) at 2, child `i` at
//! `8 + 16 * i`. Node block: level at 16, states of 64 children at 24, child
//! `i` at `40 + 16 * i`. A child is `blocks` (4), padding (4), `addr` (8).

use crate::error::FsError;
use crate::fmt::{
    csum_matches, get_u32, get_u64, magic_is, put_magic, put_u32, put_u64, seal, zero_vec,
    TREE_MAGIC,
};
use crate::fs::Gofs;
use crate::txn::Txn;
use crate::vol::Vol;
use vstd::prelude::*;

use crate::fmt;
use crate::roottable;
use crate::vol;

verus! {

pub const NODE_STATES: usize = 24;

pub const NODE_CHILDREN: usize = 40;

pub const ROOT_STATES: usize = 2;

pub const ROOT_CHILDREN: usize = 8;

/// The highest level at which a child's coverage fits 64 bits.
pub const MAX_LEVEL: u8 = 10;

/// One past the last file block that a tree can map.
pub const TREE_LIMIT: u64 = 6_917_529_027_641_081_856;

/// A child of a root or node: a hole, a run of `blocks` blocks at `addr` (the
/// rest of its range being a hole), or a node one level down at `addr`.
#[derive(Debug, Clone, Copy, PartialEq, Eq, Structural)]
pub struct Child {
    pub st: u8,
    pub blocks: u32,
    pub addr: u64,
}

/// Blocks that one child of level `level` covers.
pub open spec fn cover(level: int) -> int
    decreases level,
{
    if level <= 0 {
        1
    } else {
        64 * cover(level - 1)
    }
}

/// A child, states starting at `so` and children at `ro`.
pub open spec fn child_at(b: Seq<u8>, so: int, ro: int, i: int) -> Child {
    Child {
        st: fmt::quarter(b[so + i / 4], i % 4),
        blocks: fmt::u32_at(b, ro + 16 * i),
        addr: fmt::u64_at(b, ro + 16 * i + 8),
    }
}

/// The bytes with a child replaced.
pub open spec fn with_child(b: Seq<u8>, so: int, ro: int, i: int, c: Child) -> Seq<u8> {
    let b1 = b.update(so + i / 4, fmt::with_quarter(b[so + i / 4], i % 4, c.st));
    fmt::splice(
        fmt::splice(b1, ro + 16 * i, fmt::be32(c.blocks)),
        ro + 16 * i + 8,
        fmt::be64(c.addr),
    )
}

pub open spec fn root_at(p: Seq<u8>, i: int) -> Child {
    child_at(p, ROOT_STATES as int, ROOT_CHILDREN as int, i)
}

pub open spec fn node_at(b: Seq<u8>, i: int) -> Child {
    child_at(b, NODE_STATES as int, NODE_CHILDREN as int, i)
}

pub open spec fn root_with(p: Seq<u8>, i: int, c: Child) -> Seq<u8> {
    with_child(p, ROOT_STATES as int, ROOT_CHILDREN as int, i, c)
}

pub open spec fn node_with(b: Seq<u8>, i: int, c: Child) -> Seq<u8> {
    with_child(b, NODE_STATES as int, NODE_CHILDREN as int, i, c)
}

/// A root of that level without children.
pub open spec fn empty_root(level: u8) -> Seq<u8> {
    fmt::zeros(128).update(0, level)
}

/// A node of that level without children, before it is stored.
pub open spec fn empty_node(bs: u32, level: u8) -> Seq<u8> {
    fmt::splice(fmt::zeros(bs as nat), 0, TREE_MAGIC@).update(16, level)
}

/// The node at an address.
pub open spec fn node_of(v: Vol, t: Map<u64, Seq<u8>>, addr: u64) -> Result<Seq<u8>, FsError> {
    match vol::rd(v, t, addr) {
        Err(e) => Err(e),
        Ok(b) => if !fmt::has_magic(b, TREE_MAGIC) {
            Err(FsError::NotNode(addr))
        } else if !fmt::csum_ok(b) {
            Err(FsError::NodeChecksum(addr))
        } else {
            Ok(b)
        },
    }
}

/// The node at an address, whose children must be of level `level`.
pub open spec fn node_level_of(v: Vol, t: Map<u64, Seq<u8>>, addr: u64, level: int) -> Result<
    Seq<u8>,
    FsError,
> {
    match node_of(v, t, addr) {
        Err(e) => Err(e),
        Ok(b) => if b[16] != level {
            Err(FsError::Corrupt)
        } else {
            Ok(b)
        },
    }
}

/// Storing a node, under its next generation.
pub open spec fn node_to(t: Map<u64, Seq<u8>>, addr: u64, b: Seq<u8>) -> Map<u64, Seq<u8>> {
    t.insert(addr, roottable::table_image(b))
}

/// Blocks covered by one child at `level`: 64 to the power `level`.
pub fn cov(level: u8) -> (r: u64)
    requires
        level <= MAX_LEVEL,
    ensures
        r == cover(level as int),
        1 <= r <= 0x1000_0000_0000_0000,
        level > 0 ==> r >= 64,
{
    let mut r: u64 = 1;
    let mut k: u8 = 0;
    while k < level
        invariant
            k <= level <= 10,
            r == cover(k as int),
            1 <= r,
            k > 0 ==> r >= 64,
        decreases level - k,
    {
        proof {
            lemma_cover_bound(k + 1);
        }
        r = r * 64;
        k = k + 1;
    }
    proof {
        lemma_cover_bound(level as int);
    }
    r
}

pub proof fn lemma_cover_bound(level: int)
    requires
        0 <= level <= 10,
    ensures
        1 <= cover(level) <= 0x1000_0000_0000_0000,
{
    reveal_with_fuel(cover, 12);
    lemma_cover_monotonic(level, 10);
    assert(cover(10) == 0x1000_0000_0000_0000);
}

pub proof fn lemma_cover_monotonic(i: int, j: int)
    requires
        0 <= i <= j,
    ensures
        1 <= cover(i) <= cover(j),
    decreases j,
{
    if i < j {
        lemma_cover_monotonic(i, j - 1);
    } else if i > 0 {
        lemma_cover_monotonic(i - 1, i - 1);
    }
}

fn get_child(b: &[u8], so: usize, ro: usize, i: usize) -> (r: Child)
    requires
        i < 64,
        so + i / 4 < b@.len(),
        ro + 16 * i + 16 <= b@.len(),
    ensures
        r == child_at(b@, so as int, ro as int, i as int),
        r.st < 4,
{
    assert(b.len() == b@.len());
    let x = b[so + i / 4];
    let k = i % 4;
    let st = if k == 0 {
        x % 4
    } else if k == 1 {
        x / 4 % 4
    } else if k == 2 {
        x / 16 % 4
    } else {
        x / 64
    };
    Child { st, blocks: get_u32(b, ro + 16 * i), addr: get_u64(b, ro + 16 * i + 8) }
}

fn set_child(b: &mut [u8], so: usize, ro: usize, i: usize, c: Child)
    requires
        i < 64,
        c.st < 4,
        so + i / 4 < old(b)@.len(),
        ro + 16 * i + 16 <= old(b)@.len(),
    ensures
        final(b)@ == with_child(old(b)@, so as int, ro as int, i as int, c),
        final(b)@.len() == old(b)@.len(),
{
    assert(b.len() == b@.len());
    let x = b[so + i / 4];
    let k = i % 4;
    let st = c.st;
    let q0 = if k == 0 { st } else { x % 4 };
    let q1 = if k == 1 { st } else { x / 4 % 4 };
    let q2 = if k == 2 { st } else { x / 16 % 4 };
    let q3 = if k == 3 { st } else { x / 64 };
    b[so + i / 4] = q0 + q1 * 4 + q2 * 16 + q3 * 64;
    put_u32(b, ro + 16 * i, c.blocks);
    put_u64(b, ro + 16 * i + 8, c.addr);
}

// --- root ---------------------------------------------------------------------

pub fn root_level(p: &[u8]) -> (r: u8)
    requires
        p@.len() >= 1,
    ensures
        r == p@[0],
{
    p[0]
}

pub fn root_state(p: &[u8], i: usize) -> (r: u8)
    requires
        p@.len() >= 104,
        i < 6,
    ensures
        r == root_at(p@, i as int).st,
{
    get_child(p, ROOT_STATES, ROOT_CHILDREN, i).st
}

/// Run length and address of a root child.
pub fn root_child(p: &[u8], i: usize) -> (r: (u32, u64))
    requires
        p@.len() >= 104,
        i < 6,
    ensures
        r == (root_at(p@, i as int).blocks, root_at(p@, i as int).addr),
{
    let c = get_child(p, ROOT_STATES, ROOT_CHILDREN, i);
    (c.blocks, c.addr)
}

pub fn root_get(p: &[u8; 128], i: usize) -> (r: Child)
    requires
        i < 6,
    ensures
        r == root_at(p@, i as int),
        r.st < 4,
{
    get_child(p, ROOT_STATES, ROOT_CHILDREN, i)
}

pub fn root_set(p: &mut [u8; 128], i: usize, c: Child)
    requires
        i < 6,
        c.st < 4,
    ensures
        final(p)@ == root_with(old(p)@, i as int, c),
{
    set_child(p, ROOT_STATES, ROOT_CHILDREN, i, c);
}

pub fn root_init(level: u8) -> (r: [u8; 128])
    ensures
        r@ == empty_root(level),
{
    let mut p = [0u8; 128];
    assert(p@ =~= fmt::zeros(128));
    p[0] = level;
    p
}

// --- node blocks --------------------------------------------------------------

pub fn node_level(b: &[u8]) -> (r: u8)
    requires
        b@.len() > 16,
    ensures
        r == b@[16],
{
    b[16]
}

pub fn node_state(b: &[u8], i: usize) -> (r: u8)
    requires
        b@.len() >= 2048,
        i < 64,
    ensures
        r == node_at(b@, i as int).st,
{
    get_child(b, NODE_STATES, NODE_CHILDREN, i).st
}

/// Run length and address of a node child.
pub fn node_child(b: &[u8], i: usize) -> (r: (u32, u64))
    requires
        b@.len() >= 2048,
        i < 64,
    ensures
        r == (node_at(b@, i as int).blocks, node_at(b@, i as int).addr),
{
    let c = get_child(b, NODE_STATES, NODE_CHILDREN, i);
    (c.blocks, c.addr)
}

pub fn node_get(b: &[u8], i: usize) -> (r: Child)
    requires
        b@.len() >= 2048,
        i < 64,
    ensures
        r == node_at(b@, i as int),
        r.st < 4,
{
    get_child(b, NODE_STATES, NODE_CHILDREN, i)
}

pub fn node_set(b: &mut [u8], i: usize, c: Child)
    requires
        old(b)@.len() >= 2048,
        i < 64,
        c.st < 4,
    ensures
        final(b)@ == node_with(old(b)@, i as int, c),
        final(b)@.len() == old(b)@.len(),
{
    set_child(b, NODE_STATES, NODE_CHILDREN, i, c);
}

impl Gofs {
    pub fn node_read(&self, t: &Txn, addr: u64) -> (r: Result<Vec<u8>, FsError>)
        requires
            self.wf(),
            t.wf(self.sb.blocksize),
        ensures
            match r {
                Ok(b) => node_of(self.vol(), t@, addr) == Ok::<Seq<u8>, FsError>(b@) && b@.len()
                    == self.sb.blocksize,
                Err(e) => node_of(self.vol(), t@, addr) == Err::<Seq<u8>, FsError>(e),
            },
    {
        let buf = self.txn_read(t, addr)?;
        if !magic_is(&buf, &TREE_MAGIC) {
            return Err(FsError::NotNode(addr));
        }
        if !csum_matches(&buf) {
            return Err(FsError::NodeChecksum(addr));
        }
        Ok(buf)
    }

    /// Read a node whose children must be of level `level`.
    pub fn node_read_level(&self, t: &Txn, addr: u64, level: u8) -> (r: Result<Vec<u8>, FsError>)
        requires
            self.wf(),
            t.wf(self.sb.blocksize),
        ensures
            match r {
                Ok(b) => node_level_of(self.vol(), t@, addr, level as int) == Ok::<
                    Seq<u8>,
                    FsError,
                >(b@) && b@.len() == self.sb.blocksize,
                Err(e) => node_level_of(self.vol(), t@, addr, level as int) == Err::<
                    Seq<u8>,
                    FsError,
                >(e),
            },
    {
        let buf = self.node_read(t, addr)?;
        if node_level(&buf) != level {
            return Err(FsError::Corrupt);
        }
        Ok(buf)
    }

    pub fn node_write(&self, t: &mut Txn, addr: u64, buf: Vec<u8>)
        requires
            self.wf(),
            old(t).wf(self.sb.blocksize),
            buf@.len() == self.sb.blocksize,
        ensures
            final(t).wf(self.sb.blocksize),
            final(t)@ == node_to(old(t)@, addr, buf@),
    {
        let mut buf = buf;
        let gen = get_u64(&buf, 8);
        put_u64(&mut buf, 8, if gen == u64::MAX { 0 } else { gen + 1 });
        seal(&mut buf);
        self.txn_write(t, addr, buf);
    }

    /// A node without children, ready to be stored.
    pub fn new_node(&self, level: u8) -> (r: Vec<u8>)
        requires
            self.wf(),
        ensures
            r@ == empty_node(self.sb.blocksize, level),
            r@.len() == self.sb.blocksize,
    {
        let mut buf = zero_vec(self.sb.blocksize as usize);
        assert(buf@ =~= fmt::zeros(self.sb.blocksize as nat));
        put_magic(&mut buf, &TREE_MAGIC);
        buf.set(16, level);
        buf
    }
}

// --- laws ---------------------------------------------------------------------

/// A child reads back as it was set, and every other child is as it was.
pub proof fn law_child_reads_back(b: Seq<u8>, so: int, ro: int, i: int, j: int, c: Child, n: int)
    requires
        0 <= i < n,
        0 <= j < n,
        0 <= so,
        so + (n + 3) / 4 <= ro,
        ro + 16 * n <= b.len(),
        c.st < 4,
    ensures
        child_at(with_child(b, so, ro, i, c), so, ro, j) == if i == j {
            c
        } else {
            child_at(b, so, ro, j)
        },
        with_child(b, so, ro, i, c).len() == b.len(),
{
    let b1 = b.update(so + i / 4, fmt::with_quarter(b[so + i / 4], i % 4, c.st));
    let b2 = fmt::splice(b1, ro + 16 * i, fmt::be32(c.blocks));
    let b3 = fmt::splice(b2, ro + 16 * i + 8, fmt::be64(c.addr));
    let s = b.skip(so);
    assert(i / 4 < (n + 3) / 4 && j / 4 < (n + 3) / 4);
    fmt::law_cell_put(s, i, j, c.st);
    assert(b3[so + j / 4] == b1[so + j / 4]);
    assert(fmt::cell_put(s, i, c.st)[j / 4] == b1[so + j / 4]);
    assert(s[j / 4] == b[so + j / 4]);
    if i == j {
        assert(b3.subrange(ro + 16 * i, ro + 16 * i + 4) =~= fmt::be32(c.blocks));
        fmt::lemma_range_u32(b3, ro + 16 * i, c.blocks);
        assert(b3.subrange(ro + 16 * i + 8, ro + 16 * i + 16) =~= fmt::be64(c.addr));
        fmt::lemma_range_u64(b3, ro + 16 * i + 8, c.addr);
    } else {
        let o = ro + 16 * j;
        assert(forall|k: int| o <= k < o + 16 ==> b3[k] == b[k]);
        assert(fmt::u32_at(b3, o) == fmt::u32_at(b, o));
        assert(fmt::u64_at(b3, o + 8) == fmt::u64_at(b, o + 8));
    }
}

} // verus!
