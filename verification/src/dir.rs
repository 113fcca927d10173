//! Directories.
//!
//! Tiny directories are embedded (entries inline in the inode payload). On
//! overflow they convert to extendible hashing: the directory's file space
//! holds a header block (file block 0) and buckets (file block `1 + n`). A
//! bucket is selected by the top `global_depth` bits of the name's hash.
//!
//! Coarsening: removals trigger a buddy merge. Two buckets that differ only in
//! their deepest hash bit and fit one block merge again, the table halves when
//! every pair agrees, and freed bucket numbers go on a freelist in the header.
//! A directory that empties completely collapses to the empty format and frees
//! its blocks.

pub use crate::bucket::{hash_name, MAX_DEPTH};
use crate::allocator::Pool;
use crate::bucket::{
    bit_of, bucket_build, bucket_entries, bucket_index, entries_size, HEntry, Hent, BK_HDR, DH_HDR,
    MAX_NAME,
};
use crate::dirent::{dir_append, dir_parse, DirEntry, Dirent};
use crate::error::FsError;
use crate::fmt::{
    blk_split, csum_matches, get_u16, get_u32, get_u64, magic_is, put_magic, put_u16, put_u32,
    put_u64, seal, zero_vec, BUCKET_MAGIC, DIRH_MAGIC, FMT_EMBED, FMT_EMPTY, FMT_EXTENT, FMT_TREE,
    INODE_PAYLOAD,
};
use crate::fs::Gofs;
use crate::inode::Inode;
use crate::mapping::{Mapping, Mp};
use crate::txn::Txn;
use crate::utf16::utf16_units;
use crate::vol::Vol;
use vstd::prelude::*;

use crate::allocator;
use crate::bucket;
use crate::dirent;
use crate::extent;
use crate::fmt;
use crate::mapping;
use crate::record;
use crate::superblock;
use crate::truncate;
use crate::utf16;
use crate::vol;

verus! {

// --- header block -------------------------------------------------------------

/// What a directory header says.
#[verifier::ext_equal]
pub struct Dh {
    pub depth: u8,
    pub nbuckets: u32,
    /// Bucket numbers, by the top `depth` bits of the hash.
    pub table: Seq<u32>,
    /// Bucket numbers to use again.
    pub free: Seq<u32>,
}

/// Numbers one after the other.
pub open spec fn u32s_bytes(s: Seq<u32>) -> Seq<u8> {
    Seq::new(4 * s.len(), |i: int| fmt::be32(s[i / 4])[i % 4])
}

/// The header in a block.
pub open spec fn dh_parse(b: Seq<u8>) -> Result<Dh, FsError> {
    let depth = b[16];
    let nfree = fmt::u16_at(b, 18) as int;
    if !fmt::has_magic(b, DIRH_MAGIC) {
        Err(FsError::DirHeaderMagic)
    } else if !fmt::csum_ok(b) {
        Err(FsError::DirHeaderChecksum)
    } else if depth > 31 || DH_HDR + 4 * record::two_to(depth as int) > b.len() || 4 * nfree
        > b.len() {
        Err(FsError::Corrupt)
    } else {
        Ok(
            Dh {
                depth,
                nbuckets: fmt::u32_at(b, 20),
                table: Seq::new(
                    record::two_to(depth as int) as nat,
                    |i: int| fmt::u32_at(b, DH_HDR + 4 * i),
                ),
                free: Seq::new(nfree as nat, |k: int| fmt::u32_at(b, b.len() - 4 * (k + 1))),
            },
        )
    }
}

/// A header block of generation `gen`.
pub open spec fn dh_image(bs: int, gen: u64, h: Dh) -> Seq<u8> {
    let b = fmt::splice(fmt::zeros(bs as nat), 0, DIRH_MAGIC@);
    let b = fmt::splice(b, 8, fmt::be64(gen)).update(16, h.depth);
    let b = fmt::splice(b, 18, fmt::be16(h.free.len() as u16));
    let b = fmt::splice(b, 20, fmt::be32(h.nbuckets));
    let b = fmt::splice(b, DH_HDR as int, u32s_bytes(h.table));
    fmt::sealed(fmt::splice(b, bs - 4 * h.free.len(), u32s_bytes(h.free.reverse())))
}

/// Whether table and freelist fit a header block.
pub open spec fn dh_ok(bs: int, h: Dh) -> bool {
    DH_HDR + 4 * h.table.len() + 4 * h.free.len() <= bs && h.free.len() <= u16::MAX
}

/// A header in memory, with the address of its block.
pub struct DirHeader {
    pub blk: u64,
    pub depth: u8,
    pub nbuckets: u32,
    pub table: Vec<u32>,
    pub freelist: Vec<u32>,
}

impl View for DirHeader {
    type V = Dh;

    open spec fn view(&self) -> Dh {
        Dh {
            depth: self.depth,
            nbuckets: self.nbuckets,
            table: self.table@,
            free: self.freelist@,
        }
    }
}

// --- blocks of the directory file ---------------------------------------------

/// What a directory operation changes in the directory's inode.
#[verifier::ext_equal]
pub struct Dn {
    pub m: Mp,
    pub size: u64,
    pub nblocks: u64,
}

pub open spec fn dn_of(i: Inode) -> Dn {
    Dn { m: mapping::mp_of(i), size: i.size, nblocks: i.nblocks }
}

/// Nothing of the inode changed but mapping, size and block count.
pub open spec fn only_dir(a: Inode, b: Inode) -> bool {
    b == (Inode {
        format: b.format,
        payload: b.payload,
        size: b.size,
        nblocks: b.nblocks,
        ..a
    })
}

/// The address of block `fb` of the directory file.
pub open spec fn dir_addr(v: Vol, t: Map<u64, Seq<u8>>, m: Mp, fb: int) -> Result<u64, FsError> {
    match mapping::map_of(v, t, m, fb) {
        Err(e) => Err(e),
        Ok(Mapping::Hole(_)) => Err(FsError::DirHole(fb as u64)),
        Ok(Mapping::Run { blk, len: _ }) => Ok(blk),
    }
}

/// Address and contents of block `fb` of the directory file.
pub open spec fn dir_block(v: Vol, t: Map<u64, Seq<u8>>, m: Mp, fb: int) -> Result<
    (u64, Seq<u8>),
    FsError,
> {
    match dir_addr(v, t, m, fb) {
        Err(e) => Err(e),
        Ok(blk) => match vol::rd(v, t, blk) {
            Err(e) => Err(e),
            Ok(b) => Ok((blk, b)),
        },
    }
}

/// The header of a hashed directory, and its address.
#[verifier::opaque]
pub open spec fn dh_of(v: Vol, t: Map<u64, Seq<u8>>, m: Mp) -> Result<(u64, Dh), FsError> {
    match dir_block(v, t, m, 0) {
        Err(e) => Err(e),
        Ok((blk, b)) => match dh_parse(b) {
            Err(e) => Err(e),
            Ok(h) => Ok((blk, h)),
        },
    }
}

/// Bucket `bno`: its address, local depth and entries.
#[verifier::opaque]
pub open spec fn bucket_of(v: Vol, t: Map<u64, Seq<u8>>, m: Mp, bno: u32) -> Result<
    (u64, u8, Seq<Hent>),
    FsError,
> {
    match dir_block(v, t, m, 1 + bno) {
        Err(e) => Err(e),
        Ok((blk, b)) => if !fmt::has_magic(b, BUCKET_MAGIC) {
            Err(FsError::BucketMagic(bno))
        } else if !fmt::csum_ok(b) {
            Err(FsError::BucketChecksum(bno))
        } else {
            match bucket::hents_at(b, BK_HDR as int, fmt::u16_at(b, 18) as int) {
                None => Err(FsError::Corrupt),
                Some(es) => Ok((blk, b[16], es)),
            }
        },
    }
}

/// The generation to write to a block: one past that of its contents, which
/// starts over after the last.
pub open spec fn next_gen(v: Vol, t: Map<u64, Seq<u8>>, blk: u64) -> u64 {
    match vol::rd(v, t, blk) {
        Err(_) => 1,
        Ok(b) => if fmt::u64_at(b, 8) == u64::MAX {
            0
        } else {
            (fmt::u64_at(b, 8) + 1) as u64
        },
    }
}

/// Storing a header at `blk`.
#[verifier::opaque]
pub open spec fn dh_to(v: Vol, t: Map<u64, Seq<u8>>, blk: u64, h: Dh) -> (
    Map<u64, Seq<u8>>,
    Result<(), FsError>,
) {
    if !dh_ok(v.bs as int, h) {
        (t, Err(FsError::DirTableOverflow))
    } else {
        (t.insert(blk, dh_image(v.bs as int, next_gen(v, t, blk), h)), Ok(()))
    }
}

/// Storing a bucket at `blk`.
#[verifier::opaque]
pub open spec fn bucket_to(v: Vol, t: Map<u64, Seq<u8>>, blk: u64, depth: u8, es: Seq<Hent>) -> (
    Map<u64, Seq<u8>>,
    Result<(), FsError>,
) {
    if !bucket::bucket_ok(v.bs as int, es) {
        (t, Err(FsError::BucketOverflow))
    } else {
        (
            t.insert(
                blk,
                fmt::sealed(
                    fmt::splice(
                        bucket::bucket_body(v.bs as int, depth, es),
                        8,
                        fmt::be64(next_gen(v, t, blk)),
                    ),
                ),
            ),
            Ok(()),
        )
    }
}

/// Making block `fb` of the directory file there: its address.
pub open spec fn block_ensured(v: Vol, p: Pool, ag: u32, d: Dn, fb: int) -> (
    Pool,
    Dn,
    Result<u64, FsError>,
) {
    let (p1, m1, r1) = extent::ensured(v, p, ag, d.m, fb, 1);
    let d1 = Dn { m: m1, ..d };
    match r1 {
        Err(e) => (p1, d1, Err(e)),
        Ok(runs) => if runs.len() == 0 {
            (p1, d1, Err(FsError::Corrupt))
        } else {
            (p1, d1, Ok(runs[0].1))
        },
    }
}

/// Put numbers at `off`.
fn put_u32s(buf: &mut Vec<u8>, off: usize, s: &Vec<u32>)
    requires
        off + 4 * s@.len() <= old(buf)@.len(),
    ensures
        final(buf)@ == fmt::splice(old(buf)@, off as int, u32s_bytes(s@)),
{
    let ghost b0 = buf@;
    let mut i: usize = 0;
    assert(buf.len() == buf@.len());
    assert(s@.take(0) =~= Seq::<u32>::empty());
    assert(buf@ =~= fmt::splice(b0, off as int, u32s_bytes(s@.take(0))));
    while i < s.len()
        invariant
            i <= s@.len(),
            buf.len() == buf@.len(),
            buf@.len() == b0.len(),
            off + 4 * s@.len() <= b0.len(),
            buf@ == fmt::splice(b0, off as int, u32s_bytes(s@.take(i as int))),
        decreases s@.len() - i,
    {
        put_u32(buf, off + i * 4, s[i]);
        i = i + 1;
        assert(buf@ =~= fmt::splice(b0, off as int, u32s_bytes(s@.take(i as int))));
    }
    assert(s@.take(s@.len() as int) =~= s@);
}

/// Whether `s` holds `x`.
fn holds(s: &Vec<u32>, x: u32) -> (r: bool)
    ensures
        r == s@.contains(x),
{
    let mut i: usize = 0;
    while i < s.len()
        invariant
            i <= s@.len(),
            forall|k: int| 0 <= k < i ==> s@[k] != x,
        decreases s@.len() - i,
    {
        if s[i] == x {
            assert(s@[i as int] == x);
            return true;
        }
        i = i + 1;
    }
    false
}

/// Whether two strings are equal.
pub(crate) fn same_str(a: &str, b: &str) -> (r: bool)
    ensures
        r == (a@ == b@),
{
    a.to_owned() == b.to_owned()
}

impl Gofs {
    fn dir_block_addr(&self, t: &Txn, inode: &Inode, fb: u64) -> (r: Result<u64, FsError>)
        requires
            self.wf(),
            self.sb.blocksize >= 2048,
            t.wf(self.sb.blocksize),
        ensures
            r == dir_addr(self.vol(), t@, mapping::mp_of(*inode), fb as int),
    {
        match self.map_lookup(t, inode, fb)? {
            Mapping::Run { blk, len: _ } => Ok(blk),
            Mapping::Hole(_) => Err(FsError::DirHole(fb)),
        }
    }

    fn dir_block_read(&self, t: &Txn, inode: &Inode, fb: u64) -> (r: Result<
        (u64, Vec<u8>),
        FsError,
    >)
        requires
            self.wf(),
            self.sb.blocksize >= 2048,
            t.wf(self.sb.blocksize),
        ensures
            match r {
                Ok((blk, b)) => dir_block(self.vol(), t@, mapping::mp_of(*inode), fb as int)
                    == Ok::<(u64, Seq<u8>), FsError>((blk, b@)) && b@.len() == self.sb.blocksize,
                Err(e) => dir_block(self.vol(), t@, mapping::mp_of(*inode), fb as int) == Err::<
                    (u64, Seq<u8>),
                    FsError,
                >(e),
            },
    {
        let blk = self.dir_block_addr(t, inode, fb)?;
        let b = self.txn_read(t, blk)?;
        Ok((blk, b))
    }

    fn dir_block_ensure(&mut self, t: &mut Txn, ag: u32, inode: &mut Inode, fb: u64) -> (r: Result<
        u64,
        FsError,
    >)
        requires
            old(self).wf(),
            old(self).sb.blocksize >= 2048,
            old(t).wf(old(self).sb.blocksize),
        ensures
            final(self).wf(),
            final(t).wf(final(self).sb.blocksize),
            allocator::only_counters(*old(self), *final(self)),
            extent::only_mapping(*old(inode), *final(inode)),
            (allocator::pool_of(*final(self), *final(t)), dn_of(*final(inode)), r)
                == block_ensured(
                old(self).vol(),
                allocator::pool_of(*old(self), *old(t)),
                ag,
                dn_of(*old(inode)),
                fb as int,
            ),
    {
        let runs = self.map_ensure(t, ag, inode, fb, 1)?;
        if runs.len() == 0 {
            return Err(FsError::Corrupt);
        }
        Ok(runs[0].1)
    }

    /// Read the header of a hashed directory.
    fn dhdr_read(&self, t: &Txn, inode: &Inode) -> (r: Result<DirHeader, FsError>)
        requires
            self.wf(),
            self.sb.blocksize >= 2048,
            t.wf(self.sb.blocksize),
        ensures
            match r {
                Ok(h) => {
                    &&& dh_of(self.vol(), t@, mapping::mp_of(*inode)) == Ok::<
                        (u64, Dh),
                        FsError,
                    >((h.blk, h@))
                    &&& h.depth <= 31
                    &&& h.table@.len() == record::two_to(h.depth as int)
                    &&& 24 + 4 * h.table@.len() <= self.sb.blocksize
                    &&& h.freelist@.len() <= 65535
                },
                Err(e) => dh_of(self.vol(), t@, mapping::mp_of(*inode)) == Err::<
                    (u64, Dh),
                    FsError,
                >(e),
            },
    {
        proof {
            reveal(dh_of);
        }
        let (blk, buf) = self.dir_block_read(t, inode, 0)?;
        if !magic_is(&buf, &DIRH_MAGIC) {
            return Err(FsError::DirHeaderMagic);
        }
        if !csum_matches(&buf) {
            return Err(FsError::DirHeaderChecksum);
        }
        let depth = buf[16];
        let nfree = get_u16(&buf, 18) as usize;
        let bs = buf.len();
        if depth > 31 {
            return Err(FsError::Corrupt);
        }
        let slots = record::power(depth as u32);
        if slots as usize > (bs - DH_HDR) / 4 || 4 * nfree > bs {
            return Err(FsError::Corrupt);
        }
        let table = read_u32s(&buf, slots as usize);
        let freelist = read_back(&buf, nfree);
        let h = DirHeader { blk, depth, nbuckets: get_u32(&buf, 20), table, freelist };
        proof {
            let want = dh_parse(buf@)->Ok_0;
            assert(h@.table =~= want.table);
            assert(h@.free =~= want.free);
        }
        Ok(h)
    }

    /// The generation to write to a block.
    fn gen_for(&self, t: &Txn, blk: u64) -> (r: u64)
        requires
            self.wf(),
            t.wf(self.sb.blocksize),
        ensures
            r == next_gen(self.vol(), t@, blk),
    {
        match self.txn_read(t, blk) {
            Ok(b) => {
                let g = get_u64(&b, 8);
                if g == u64::MAX {
                    0
                } else {
                    g + 1
                }
            },
            Err(_) => 1,
        }
    }

    /// Store a header.
    #[verifier::rlimit(30)]
    fn dhdr_write(&self, t: &mut Txn, h: &DirHeader) -> (r: Result<(), FsError>)
        requires
            self.wf(),
            self.sb.blocksize >= 2048,
            old(t).wf(self.sb.blocksize),
        ensures
            final(t).wf(self.sb.blocksize),
            (final(t)@, r) == dh_to(self.vol(), old(t)@, h.blk, h@),
    {
        proof {
            reveal(dh_to);
            superblock::lemma_blocksize_bound(self.sb.blocksize);
        }
        let bs = self.sb.blocksize as usize;
        let n = h.table.len();
        let f = h.freelist.len();
        if f > 65535 || n > bs / 4 || DH_HDR + n * 4 + f * 4 > bs {
            return Err(FsError::DirTableOverflow);
        }
        let mut buf = zero_vec(bs);
        assert(buf@ =~= fmt::zeros(bs as nat));
        put_magic(&mut buf, &DIRH_MAGIC);
        put_u64(&mut buf, 8, self.gen_for(t, h.blk));
        buf.set(16, h.depth);
        put_u16(&mut buf, 18, f as u16);
        put_u32(&mut buf, 20, h.nbuckets);
        put_u32s(&mut buf, DH_HDR, &h.table);
        let back = reversed(&h.freelist);
        put_u32s(&mut buf, bs - 4 * f, &back);
        seal(&mut buf);
        self.txn_write(t, h.blk, buf);
        Ok(())
    }

    /// Read a bucket: address, local depth, entries.
    fn bucket_read(&self, t: &Txn, inode: &Inode, bno: u32) -> (r: Result<
        (u64, u8, Vec<HEntry>),
        FsError,
    >)
        requires
            self.wf(),
            self.sb.blocksize >= 2048,
            t.wf(self.sb.blocksize),
        ensures
            match r {
                Ok((blk, d, es)) => bucket_of(self.vol(), t@, mapping::mp_of(*inode), bno) == Ok::<
                    (u64, u8, Seq<Hent>),
                    FsError,
                >((blk, d, bucket::hents(es@))) && es@.len() <= 65535,
                Err(e) => bucket_of(self.vol(), t@, mapping::mp_of(*inode), bno) == Err::<
                    (u64, u8, Seq<Hent>),
                    FsError,
                >(e),
            },
    {
        proof {
            reveal(bucket_of);
            superblock::lemma_blocksize_bound(self.sb.blocksize);
        }
        let (blk, buf) = self.dir_block_read(t, inode, 1 + bno as u64)?;
        if !magic_is(&buf, &BUCKET_MAGIC) {
            return Err(FsError::BucketMagic(bno));
        }
        if !csum_matches(&buf) {
            return Err(FsError::BucketChecksum(bno));
        }
        let es = bucket_entries(&buf)?;
        Ok((blk, buf[16], es))
    }

    /// Store a bucket.
    fn bucket_write(&self, t: &mut Txn, blk: u64, local_depth: u8, entries: &Vec<HEntry>) -> (r:
        Result<(), FsError>)
        requires
            self.wf(),
            old(t).wf(self.sb.blocksize),
        ensures
            final(t).wf(self.sb.blocksize),
            (final(t)@, r) == bucket_to(
                self.vol(),
                old(t)@,
                blk,
                local_depth,
                bucket::hents(entries@),
            ),
    {
        proof {
            reveal(bucket_to);
            superblock::lemma_blocksize_bound(self.sb.blocksize);
        }
        let mut buf = bucket_build(self.sb.blocksize as usize, local_depth, entries)?;
        put_u64(&mut buf, 8, self.gen_for(t, blk));
        seal(&mut buf);
        self.txn_write(t, blk, buf);
        Ok(())
    }
}

// --- lookup -------------------------------------------------------------------

/// The first entry from `i` on with that name.
pub open spec fn entry_named(es: Seq<Dirent>, name: Seq<char>, i: int) -> Option<int>
    decreases es.len() - i,
{
    if i >= es.len() {
        None
    } else if es[i].name == name {
        Some(i)
    } else {
        entry_named(es, name, i + 1)
    }
}

/// The first bucket entry from `i` on with that hash and name.
pub open spec fn hent_named(es: Seq<Hent>, hash: u64, name: Seq<char>, i: int) -> Option<int>
    decreases es.len() - i,
{
    if i >= es.len() {
        None
    } else if es[i].hash == hash && es[i].name == name {
        Some(i)
    } else {
        hent_named(es, hash, name, i + 1)
    }
}

/// The bucket that a hash belongs to.
pub open spec fn bucket_for(h: Dh, hash: u64) -> u32 {
    h.table[bucket::slot_of(hash, h.depth as int)]
}

/// The entry of a hashed directory with that name.
pub open spec fn hashed_found(v: Vol, t: Map<u64, Seq<u8>>, uuid: Seq<u8>, m: Mp, name: Seq<char>) -> Result<
    Option<Dirent>,
    FsError,
> {
    let hash = bucket::name_hash(uuid, name);
    match dh_of(v, t, m) {
        Err(e) => Err(e),
        Ok((_, h)) => match bucket_of(v, t, m, bucket_for(h, hash)) {
            Err(e) => Err(e),
            Ok((_, _, es)) => match hent_named(es, hash, name, 0) {
                None => Ok(None),
                Some(i) => Ok(Some(bucket::dirent_of(es[i]))),
            },
        },
    }
}

/// The entry of a directory with that name.
pub open spec fn found(
    v: Vol,
    t: Map<u64, Seq<u8>>,
    uuid: Seq<u8>,
    is_dir: bool,
    m: Mp,
    name: Seq<char>,
) -> Result<Option<Dirent>, FsError> {
    if !is_dir {
        Err(FsError::NotADirectory)
    } else if m.format == FMT_EMPTY {
        Ok(None)
    } else if m.format == FMT_EMBED {
        match entry_named(dirent::dir_entries_of(m.payload), name, 0) {
            None => Ok(None),
            Some(i) => Ok(Some(dirent::dir_entries_of(m.payload)[i])),
        }
    } else if m.format == FMT_EXTENT || m.format == FMT_TREE {
        hashed_found(v, t, uuid, m, name)
    } else {
        Err(FsError::DirFormat(m.format))
    }
}

/// Find an entry by name.
pub fn position_of(es: &Vec<DirEntry>, name: &str) -> (r: Option<usize>)
    ensures
        match r {
            Some(i) => entry_named(dirent::dirents(es@), name@, 0) == Some(i as int) && i
                < es@.len(),
            None => entry_named(dirent::dirents(es@), name@, 0) is None,
        },
{
    let mut i: usize = 0;
    let ghost s = dirent::dirents(es@);
    while i < es.len()
        invariant
            i <= es@.len() == s.len(),
            s == dirent::dirents(es@),
            entry_named(s, name@, 0) == entry_named(s, name@, i as int),
        decreases es@.len() - i,
    {
        assert(s[i as int] == es@[i as int]@);
        if same_str(es[i].name.as_str(), name) {
            return Some(i);
        }
        i = i + 1;
    }
    None
}

/// Find a bucket entry by hash and name.
fn hposition_of(es: &Vec<HEntry>, hash: u64, name: &str) -> (r: Option<usize>)
    ensures
        match r {
            Some(i) => hent_named(bucket::hents(es@), hash, name@, 0) == Some(i as int) && i
                < es@.len(),
            None => hent_named(bucket::hents(es@), hash, name@, 0) is None,
        },
{
    let mut i: usize = 0;
    let ghost s = bucket::hents(es@);
    while i < es.len()
        invariant
            i <= es@.len() == s.len(),
            s == bucket::hents(es@),
            hent_named(s, hash, name@, 0) == hent_named(s, hash, name@, i as int),
        decreases es@.len() - i,
    {
        assert(s[i as int] == es@[i as int]@);
        if es[i].hash == hash && same_str(es[i].name.as_str(), name) {
            return Some(i);
        }
        i = i + 1;
    }
    None
}

/// The view of an optional entry.
pub open spec fn opt_view(e: Option<DirEntry>) -> Option<Dirent> {
    match e {
        Some(x) => Some(x@),
        None => None,
    }
}

impl Gofs {
    /// Find an entry by name, in any format.
    pub fn dir_find(&self, t: &Txn, inode: &Inode, name: &str) -> (r: Result<
        Option<DirEntry>,
        FsError,
    >)
        requires
            self.wf(),
            self.sb.blocksize >= 2048,
            t.wf(self.sb.blocksize),
        ensures
            match r {
                Ok(e) => found(
                    self.vol(),
                    t@,
                    self.sb.uuid@,
                    inode.spec_is_dir(),
                    mapping::mp_of(*inode),
                    name@,
                ) == Ok::<Option<Dirent>, FsError>(opt_view(e)),
                Err(e) => found(
                    self.vol(),
                    t@,
                    self.sb.uuid@,
                    inode.spec_is_dir(),
                    mapping::mp_of(*inode),
                    name@,
                ) == Err::<Option<Dirent>, FsError>(e),
            },
    {
        if !inode.is_dir() {
            return Err(FsError::NotADirectory);
        }
        if inode.format == FMT_EMPTY {
            return Ok(None);
        }
        if inode.format == FMT_EMBED {
            let es = dir_parse(&inode.payload);
            return match position_of(&es, name) {
                Some(i) => {
                    assert(dirent::dirents(es@)[i as int] == es@[i as int]@);
                    Ok(Some(es[i].copy()))
                },
                None => Ok(None),
            };
        }
        if inode.format != FMT_EXTENT && inode.format != FMT_TREE {
            return Err(FsError::DirFormat(inode.format));
        }
        let hash = hash_name(&self.sb.uuid, name);
        let h = self.dhdr_read(t, inode)?;
        let bno = h.table[bucket_index(hash, h.depth)];
        let (_, _, es) = self.bucket_read(t, inode, bno)?;
        match hposition_of(&es, hash, name) {
            Some(i) => {
                assert(bucket::hents(es@)[i as int] == es@[i as int]@);
                Ok(Some(es[i].plain()))
            },
            None => Ok(None),
        }
    }
}

// --- insertion ----------------------------------------------------------------

/// Every slot twice.
pub open spec fn doubled(table: Seq<u32>) -> Seq<u32> {
    Seq::new(2 * table.len(), |i: int| table[i / 2])
}

/// The entries whose hash has bit `bit` set, or clear.
pub open spec fn with_bit(es: Seq<Hent>, bit: int, on: bool) -> Seq<Hent>
    decreases es.len(),
{
    if es.len() == 0 {
        es
    } else if record::bit_on(es.last().hash as int, bit) == on {
        with_bit(es.drop_last(), bit, on).push(es.last())
    } else {
        with_bit(es.drop_last(), bit, on)
    }
}

/// The table after bucket `bno` was split: its slots with bit `bit` set go to
/// the new bucket.
pub open spec fn split_table(table: Seq<u32>, bno: u32, new: u32, bit: int) -> Seq<u32> {
    Seq::new(
        table.len(),
        |i: int|
            if table[i] == bno && record::bit_on(i, bit) {
                new
            } else {
                table[i]
            },
    )
}

/// Splitting bucket `bno` (at `bblk`, of depth `ld`, with entries `es`) of the
/// directory with header `h` at `hblk`.
#[verifier::opaque]
pub open spec fn split(
    v: Vol,
    p: Pool,
    ag: u32,
    d: Dn,
    hblk: u64,
    h: Dh,
    bno: u32,
    bblk: u64,
    ld: u8,
    es: Seq<Hent>,
) -> (Pool, Dn, Result<(), FsError>) {
    if ld > h.depth {
        (p, d, Err(FsError::Corrupt))
    } else if ld == h.depth && h.depth >= MAX_DEPTH {
        (p, d, Err(FsError::MaxDepth))
    } else if h.free.len() == 0 && h.nbuckets == u32::MAX {
        (p, d, Err(FsError::Corrupt))
    } else {
        let depth = if ld == h.depth {
            (h.depth + 1) as u8
        } else {
            h.depth
        };
        let table = if ld == h.depth {
            doubled(h.table)
        } else {
            h.table
        };
        // a freed bucket number is used again before the file grows
        let new = if h.free.len() > 0 {
            h.free.last()
        } else {
            h.nbuckets
        };
        let h1 = Dh {
            depth,
            nbuckets: if h.free.len() > 0 {
                h.nbuckets
            } else {
                (h.nbuckets + 1) as u32
            },
            table: split_table(table, bno, new, depth - 1 - ld),
            free: if h.free.len() > 0 {
                h.free.drop_last()
            } else {
                h.free
            },
        };
        let (p1, d1, r1) = block_ensured(v, p, ag, d, 1 + new);
        match r1 {
            Err(e) => (p1, d1, Err(e)),
            Ok(nblk) => {
                let far = (2 + new) * v.bs;
                let d2 = Dn {
                    size: if d1.size < far {
                        far as u64
                    } else {
                        d1.size
                    },
                    ..d1
                };
                let bit = 63 - ld;
                let (t2, r2) = bucket_to(
                    v,
                    p1.t,
                    bblk,
                    (ld + 1) as u8,
                    with_bit(es, bit, false),
                );
                match r2 {
                    Err(e) => (Pool { t: t2, ..p1 }, d2, Err(e)),
                    Ok(_) => {
                        let (t3, r3) = bucket_to(
                            v,
                            t2,
                            nblk,
                            (ld + 1) as u8,
                            with_bit(es, bit, true),
                        );
                        match r3 {
                            Err(e) => (Pool { t: t3, ..p1 }, d2, Err(e)),
                            Ok(_) => {
                                let (t4, r4) = dh_to(v, t3, hblk, h1);
                                (Pool { t: t4, ..p1 }, d2, r4)
                            },
                        }
                    },
                }
            },
        }
    }
}

/// How often one insertion may split: once for every bit of the hash.
pub const MAX_SPLITS: u32 = 64;

/// Inserting an entry in a hashed directory; `tries` splits are left.
pub open spec fn hashed_inserted(v: Vol, p: Pool, ag: u32, d: Dn, new: Hent, tries: int) -> (
    Pool,
    Dn,
    Result<(), FsError>,
)
    decreases tries,
{
    match dh_of(v, p.t, d.m) {
        Err(e) => (p, d, Err(e)),
        Ok((hblk, h)) => {
            let bno = bucket_for(h, new.hash);
            match bucket_of(v, p.t, d.m, bno) {
                Err(e) => (p, d, Err(e)),
                Ok((bblk, ld, es)) => if bucket::fits_with(v.bs as int, es, new) {
                    let (t1, r1) = bucket_to(v, p.t, bblk, ld, es.push(new));
                    (Pool { t: t1, ..p }, d, r1)
                } else if tries <= 0 {
                    (p, d, Err(FsError::Corrupt))
                } else {
                    let (p1, d1, r1) = split(v, p, ag, d, hblk, h, bno, bblk, ld, es);
                    match r1 {
                        Err(e) => (p1, d1, Err(e)),
                        Ok(_) => hashed_inserted(v, p1, ag, d1, new, tries - 1),
                    }
                },
            }
        },
    }
}

/// An entry with its hash.
pub open spec fn hashed(uuid: Seq<u8>, e: Dirent) -> Hent {
    Hent { ino: e.ino, hash: bucket::name_hash(uuid, e.name), ftype: e.ftype, name: e.name }
}

/// Inserting the entries from `k` on.
pub open spec fn all_inserted(
    v: Vol,
    p: Pool,
    uuid: Seq<u8>,
    ag: u32,
    d: Dn,
    es: Seq<Dirent>,
    k: int,
) -> (Pool, Dn, Result<(), FsError>)
    decreases es.len() - k,
{
    if k >= es.len() {
        (p, d, Ok(()))
    } else {
        let (p1, d1, r1) = hashed_inserted(v, p, ag, d, hashed(uuid, es[k]), MAX_SPLITS as int);
        match r1 {
            Err(e) => (p1, d1, Err(e)),
            Ok(_) => all_inserted(v, p1, uuid, ag, d1, es, k + 1),
        }
    }
}

/// A fresh hashed directory: a header and one empty bucket.
pub open spec fn hash_started(v: Vol, p: Pool, ag: u32, d: Dn) -> (Pool, Dn, Result<(), FsError>) {
    let d0 = Dn { m: Mp { format: FMT_EMPTY, payload: fmt::zeros(INODE_PAYLOAD as nat) }, ..d };
    let (p1, d1, r1) = block_ensured(v, p, ag, d0, 0);
    match r1 {
        Err(e) => (p1, d1, Err(e)),
        Ok(hblk) => {
            let (p2, d2, r2) = block_ensured(v, p1, ag, d1, 1);
            match r2 {
                Err(e) => (p2, d2, Err(e)),
                Ok(bblk) => {
                    let h = Dh { depth: 0, nbuckets: 1, table: seq![0u32], free: Seq::empty() };
                    let (t3, r3) = dh_to(v, p2.t, hblk, h);
                    match r3 {
                        Err(e) => (Pool { t: t3, ..p2 }, d2, Err(e)),
                        Ok(_) => {
                            let (t4, r4) = bucket_to(v, t3, bblk, 0, Seq::empty());
                            match r4 {
                                Err(e) => (Pool { t: t4, ..p2 }, d2, Err(e)),
                                Ok(_) => (
                                    Pool { t: t4, ..p2 },
                                    Dn { size: (2 * v.bs) as u64, ..d2 },
                                    Ok(()),
                                ),
                            }
                        },
                    }
                },
            }
        },
    }
}

/// Turning an embedded directory into a hashed one.
pub open spec fn to_hashed(v: Vol, p: Pool, uuid: Seq<u8>, ag: u32, d: Dn) -> (
    Pool,
    Dn,
    Result<(), FsError>,
) {
    let (p1, d1, r1) = hash_started(v, p, ag, d);
    match r1 {
        Err(e) => (p1, d1, Err(e)),
        Ok(_) => all_inserted(v, p1, uuid, ag, d1, dirent::dir_entries_of(d.m.payload), 0),
    }
}

/// Inserting in a hashed directory an entry that is not there yet.
pub open spec fn hashed_added(v: Vol, p: Pool, uuid: Seq<u8>, ag: u32, d: Dn, e: Dirent) -> (
    Pool,
    Dn,
    Result<(), FsError>,
) {
    match found(v, p.t, uuid, true, d.m, e.name) {
        Err(x) => (p, d, Err(x)),
        Ok(Some(_)) => (p, d, Err(FsError::Exists)),
        Ok(None) => if d.m.format == FMT_EXTENT || d.m.format == FMT_TREE {
            hashed_inserted(v, p, ag, d, hashed(uuid, e), MAX_SPLITS as int)
        } else {
            (p, d, Err(FsError::DirFormat(d.m.format)))
        },
    }
}

/// Inserting an entry: embedded while it fits, hashed from there on.
pub open spec fn inserted(v: Vol, p: Pool, uuid: Seq<u8>, ag: u32, is_dir: bool, d: Dn, e: Dirent) -> (
    Pool,
    Dn,
    Result<(), FsError>,
) {
    match found(v, p.t, uuid, is_dir, d.m, e.name) {
        Err(x) => (p, d, Err(x)),
        Ok(Some(_)) => (p, d, Err(FsError::Exists)),
        Ok(None) => if utf16::encode_utf16(e.name).len() > MAX_NAME {
            (p, d, Err(FsError::NameTooLong))
        } else if d.m.format == FMT_EMPTY || d.m.format == FMT_EMBED {
            let d0 = if d.m.format == FMT_EMPTY {
                Dn {
                    m: Mp { format: FMT_EMBED, payload: fmt::zeros(INODE_PAYLOAD as nat) },
                    ..d
                }
            } else {
                d
            };
            match dirent::dir_appended(d0.m.payload, e) {
                Ok(pl) => (p, Dn { m: Mp { payload: pl, ..d0.m }, ..d0 }, Ok(())),
                Err(_) => {
                    let (p1, d1, r1) = to_hashed(v, p, uuid, ag, d0);
                    match r1 {
                        Err(x) => (p1, d1, Err(x)),
                        Ok(_) => hashed_added(v, p1, uuid, ag, d1, e),
                    }
                },
            }
        } else {
            hashed_inserted(v, p, ag, d, hashed(uuid, e), MAX_SPLITS as int)
        },
    }
}

/// Every slot twice.
fn double_table(table: &Vec<u32>) -> (r: Vec<u32>)
    ensures
        r@ == doubled(table@),
{
    let mut out: Vec<u32> = Vec::new();
    let mut i: usize = 0;
    while i < table.len()
        invariant
            i <= table@.len(),
            out@.len() == 2 * i,
            forall|k: int| 0 <= k < out@.len() ==> out@[k] == table@[k / 2],
        decreases table@.len() - i,
    {
        out.push(table[i]);
        out.push(table[i]);
        i = i + 1;
    }
    assert(out@ =~= doubled(table@));
    out
}

/// The entries whose hash has bit `bit` as `on` says.
fn pick(es: &Vec<HEntry>, bit: u32, on: bool) -> (r: Vec<HEntry>)
    ensures
        bucket::hents(r@) == with_bit(bucket::hents(es@), bit as int, on),
{
    let mut out: Vec<HEntry> = Vec::new();
    let mut i: usize = 0;
    let ghost s = bucket::hents(es@);
    assert(s.take(0) =~= Seq::<Hent>::empty());
    assert(bucket::hents(out@) =~= with_bit(s.take(0), bit as int, on));
    while i < es.len()
        invariant
            i <= es@.len() == s.len(),
            s == bucket::hents(es@),
            bucket::hents(out@) == with_bit(s.take(i as int), bit as int, on),
        decreases es@.len() - i,
    {
        proof {
            assert(s.take(i + 1).drop_last() =~= s.take(i as int));
            assert(s.take(i + 1).last() == es@[i as int]@);
        }
        if bit_of(es[i].hash, bit) == on {
            let ghost before = bucket::hents(out@);
            let e = es[i].copy();
            out.push(e);
            assert(bucket::hents(out@) =~= before.push(e@));
        }
        i = i + 1;
    }
    assert(s.take(s.len() as int) =~= s);
    out
}

/// The table after a split.
fn retarget(table: &Vec<u32>, bno: u32, new: u32, bit: u32) -> (r: Vec<u32>)
    requires
        table@.len() <= u32::MAX,
    ensures
        r@ == split_table(table@, bno, new, bit as int),
{
    let mut out: Vec<u32> = Vec::new();
    let mut i: usize = 0;
    while i < table.len()
        invariant
            i <= table@.len() <= u32::MAX,
            out@.len() == i,
            forall|k: int|
                0 <= k < i ==> out@[k] == split_table(table@, bno, new, bit as int)[k],
        decreases table@.len() - i,
    {
        let b = table[i];
        if b == bno && bit_of(i as u64, bit) {
            out.push(new);
        } else {
            out.push(b);
        }
        i = i + 1;
    }
    assert(out@ =~= split_table(table@, bno, new, bit as int));
    out
}

impl Gofs {
    /// Split a bucket that has no room.
    #[verifier::rlimit(40)]
    fn split_bucket(
        &mut self,
        t: &mut Txn,
        ag: u32,
        inode: &mut Inode,
        h: DirHeader,
        bno: u32,
        bblk: u64,
        ld: u8,
        entries: &Vec<HEntry>,
    ) -> (r: Result<(), FsError>)
        requires
            old(self).wf(),
            old(self).sb.blocksize >= 2048,
            old(t).wf(old(self).sb.blocksize),
            h.depth <= 31,
            24 + 4 * h.table@.len() <= old(self).sb.blocksize,
        ensures
            final(self).wf(),
            final(t).wf(final(self).sb.blocksize),
            allocator::only_counters(*old(self), *final(self)),
            only_dir(*old(inode), *final(inode)),
            (allocator::pool_of(*final(self), *final(t)), dn_of(*final(inode)), r) == split(
                old(self).vol(),
                allocator::pool_of(*old(self), *old(t)),
                ag,
                dn_of(*old(inode)),
                h.blk,
                h@,
                bno,
                bblk,
                ld,
                bucket::hents(entries@),
            ),
    {
        proof {
            reveal(split);
        }
        let ghost h0 = h@;
        if ld > h.depth {
            return Err(FsError::Corrupt);
        }
        if ld == h.depth && h.depth >= MAX_DEPTH {
            return Err(FsError::MaxDepth);
        }
        let nfree = h.freelist.len();
        if nfree == 0 && h.nbuckets == u32::MAX {
            return Err(FsError::Corrupt);
        }
        let depth = if ld == h.depth { h.depth + 1 } else { h.depth };
        let table = if ld == h.depth { double_table(&h.table) } else { h.table };
        let mut freelist = h.freelist;
        // a freed bucket number is used again before the file grows
        let (new, nbuckets) = match freelist.pop() {
            Some(b) => (b, h.nbuckets),
            None => (h.nbuckets, h.nbuckets + 1),
        };
        assert(freelist@ == if h0.free.len() > 0 {
            h0.free.drop_last()
        } else {
            h0.free
        });
        let nblk = self.dir_block_ensure(t, ag, inode, 1 + new as u64)?;
        let bs = self.sb.blocksize as u64;
        assert((2 + new) * bs <= 0x1_0000_0001 * 0xffff_ffff) by (nonlinear_arith)
            requires
                0 <= new <= 0xffff_ffff,
                0 <= bs <= 0xffff_ffff,
        ;
        let far = (2 + new as u64) * bs;
        if inode.size < far {
            inode.size = far;
        }
        let bit = 63 - ld as u32;
        let stay = pick(entries, bit, false);
        let go = pick(entries, bit, true);
        self.bucket_write(t, bblk, ld + 1, &stay)?;
        self.bucket_write(t, nblk, ld + 1, &go)?;
        let table = retarget(&table, bno, new, (depth - 1 - ld) as u32);
        let h1 = DirHeader { blk: h.blk, depth, nbuckets, table, freelist };
        self.dhdr_write(t, &h1)
    }

    /// Insert an entry in a hashed directory.
    fn hashed_insert(&mut self, t: &mut Txn, ag: u32, inode: &mut Inode, entry: &DirEntry) -> (r:
        Result<(), FsError>)
        requires
            old(self).wf(),
            old(self).sb.blocksize >= 2048,
            old(t).wf(old(self).sb.blocksize),
        ensures
            final(self).wf(),
            final(t).wf(final(self).sb.blocksize),
            allocator::only_counters(*old(self), *final(self)),
            only_dir(*old(inode), *final(inode)),
            (allocator::pool_of(*final(self), *final(t)), dn_of(*final(inode)), r)
                == hashed_inserted(
                old(self).vol(),
                allocator::pool_of(*old(self), *old(t)),
                ag,
                dn_of(*old(inode)),
                hashed(old(self).sb.uuid@, entry@),
                MAX_SPLITS as int,
            ),
    {
        let hash = hash_name(&self.sb.uuid, entry.name.as_str());
        let new = HEntry {
            ino: entry.ino,
            hash,
            ftype: entry.ftype,
            name: entry.name.clone(),
        };
        let ghost e = new@;
        assert(e =~= hashed(self.sb.uuid@, entry@));
        let bs = self.sb.blocksize as usize;
        let ghost v = self.vol();
        let ghost want = hashed_inserted(
            v,
            allocator::pool_of(*self, *t),
            ag,
            dn_of(*inode),
            e,
            MAX_SPLITS as int,
        );
        proof {
            superblock::lemma_blocksize_bound(self.sb.blocksize);
        }
        let mut tries: u32 = MAX_SPLITS;
        loop
            invariant
                self.wf(),
                self.sb.blocksize >= 2048,
                bs == self.sb.blocksize,
                bs <= 0x8000_0000,
                t.wf(self.sb.blocksize),
                self.vol() == v,
                v == old(self).vol(),
                e == new@,
                e == hashed(old(self).sb.uuid@, entry@),
                hash == e.hash,
                allocator::only_counters(*old(self), *self),
                only_dir(*old(inode), *inode),
                want == hashed_inserted(
                    v,
                    allocator::pool_of(*old(self), *old(t)),
                    ag,
                    dn_of(*old(inode)),
                    e,
                    MAX_SPLITS as int,
                ),
                want == hashed_inserted(
                    v,
                    allocator::pool_of(*self, *t),
                    ag,
                    dn_of(*inode),
                    e,
                    tries as int,
                ),
            decreases tries,
        {
            let h = self.dhdr_read(t, inode)?;
            let bno = h.table[bucket_index(hash, h.depth)];
            let (bblk, ld, mut entries) = self.bucket_read(t, inode, bno)?;
            if room_for(&entries, &new, bs) {
                let ghost before = bucket::hents(entries@);
                entries.push(new);
                assert(bucket::hents(entries@) =~= before.push(e));
                return self.bucket_write(t, bblk, ld, &entries);
            }
            if tries == 0 {
                return Err(FsError::Corrupt);
            }
            self.split_bucket(t, ag, inode, h, bno, bblk, ld, &entries)?;
            tries = tries - 1;
        }
    }

    /// Convert an embedded directory to a hashed one.
    fn dir_to_hashed(&mut self, t: &mut Txn, ag: u32, inode: &mut Inode) -> (r: Result<(), FsError>)
        requires
            old(self).wf(),
            old(self).sb.blocksize >= 2048,
            old(t).wf(old(self).sb.blocksize),
        ensures
            final(self).wf(),
            final(t).wf(final(self).sb.blocksize),
            allocator::only_counters(*old(self), *final(self)),
            only_dir(*old(inode), *final(inode)),
            (allocator::pool_of(*final(self), *final(t)), dn_of(*final(inode)), r) == to_hashed(
                old(self).vol(),
                allocator::pool_of(*old(self), *old(t)),
                old(self).sb.uuid@,
                ag,
                dn_of(*old(inode)),
            ),
    {
        let es = dir_parse(&inode.payload);
        self.hash_start(t, ag, inode)?;
        let ghost v = self.vol();
        let ghost uuid = self.sb.uuid@;
        let ghost s = dirent::dirents(es@);
        let ghost want = all_inserted(
            v,
            allocator::pool_of(*self, *t),
            uuid,
            ag,
            dn_of(*inode),
            s,
            0,
        );
        assert(want == to_hashed(
            v,
            allocator::pool_of(*old(self), *old(t)),
            uuid,
            ag,
            dn_of(*old(inode)),
        ));
        let mut k: usize = 0;
        while k < es.len()
            invariant
                k <= es@.len() == s.len(),
                s == dirent::dirents(es@),
                self.wf(),
                self.sb.blocksize >= 2048,
                t.wf(self.sb.blocksize),
                self.vol() == v,
                self.sb.uuid@ == uuid,
                v == old(self).vol(),
                uuid == old(self).sb.uuid@,
                allocator::only_counters(*old(self), *self),
                only_dir(*old(inode), *inode),
                want == to_hashed(
                    v,
                    allocator::pool_of(*old(self), *old(t)),
                    uuid,
                    ag,
                    dn_of(*old(inode)),
                ),
                want == all_inserted(
                    v,
                    allocator::pool_of(*self, *t),
                    uuid,
                    ag,
                    dn_of(*inode),
                    s,
                    k as int,
                ),
            decreases es@.len() - k,
        {
            assert(s[k as int] == es@[k as int]@);
            self.hashed_insert(t, ag, inode, &es[k])?;
            k = k + 1;
        }
        Ok(())
    }

    /// Start a hashed directory: a header and one empty bucket.
    fn hash_start(&mut self, t: &mut Txn, ag: u32, inode: &mut Inode) -> (r: Result<(), FsError>)
        requires
            old(self).wf(),
            old(self).sb.blocksize >= 2048,
            old(t).wf(old(self).sb.blocksize),
        ensures
            final(self).wf(),
            final(t).wf(final(self).sb.blocksize),
            allocator::only_counters(*old(self), *final(self)),
            only_dir(*old(inode), *final(inode)),
            (allocator::pool_of(*final(self), *final(t)), dn_of(*final(inode)), r) == hash_started(
                old(self).vol(),
                allocator::pool_of(*old(self), *old(t)),
                ag,
                dn_of(*old(inode)),
            ),
    {
        inode.format = FMT_EMPTY;
        let z = [0u8; 128];
        assert(z@ =~= fmt::zeros(128));
        inode.payload = z;
        let hblk = self.dir_block_ensure(t, ag, inode, 0)?;
        let bblk = self.dir_block_ensure(t, ag, inode, 1)?;
        let mut table: Vec<u32> = Vec::new();
        table.push(0);
        let h = DirHeader { blk: hblk, depth: 0, nbuckets: 1, table, freelist: Vec::new() };
        assert(h@.table =~= seq![0u32]);
        assert(h@.free =~= Seq::empty());
        self.dhdr_write(t, &h)?;
        let none: Vec<HEntry> = Vec::new();
        assert(bucket::hents(none@) =~= Seq::empty());
        self.bucket_write(t, bblk, 0, &none)?;
        inode.size = 2 * self.sb.blocksize as u64;
        Ok(())
    }

    /// Insert an entry, converting an embedded directory to a hashed one on
    /// overflow. `dir_ino` determines the group for new blocks. The caller
    /// persists the inode.
    pub fn dir_insert(&mut self, t: &mut Txn, dir_ino: u64, inode: &mut Inode, entry: &DirEntry) -> (r:
        Result<(), FsError>)
        requires
            old(self).wf(),
            old(self).sb.blocksize >= 2048,
            old(t).wf(old(self).sb.blocksize),
        ensures
            final(self).wf(),
            final(t).wf(final(self).sb.blocksize),
            allocator::only_counters(*old(self), *final(self)),
            only_dir(*old(inode), *final(inode)),
            (allocator::pool_of(*final(self), *final(t)), dn_of(*final(inode)), r) == inserted(
                old(self).vol(),
                allocator::pool_of(*old(self), *old(t)),
                old(self).sb.uuid@,
                fmt::addr_ag(dir_ino),
                old(inode).spec_is_dir(),
                dn_of(*old(inode)),
                entry@,
            ),
    {
        if self.dir_find(t, inode, entry.name.as_str())?.is_some() {
            return Err(FsError::Exists);
        }
        if utf16_units(entry.name.as_str()).len() > MAX_NAME {
            return Err(FsError::NameTooLong);
        }
        let (ag, _) = blk_split(dir_ino);
        if inode.format == FMT_EMPTY || inode.format == FMT_EMBED {
            if inode.format == FMT_EMPTY {
                inode.format = FMT_EMBED;
                let z = [0u8; 128];
                assert(z@ =~= fmt::zeros(128));
                inode.payload = z;
            }
            let mut p = inode.payload;
            if dir_append(&mut p, entry).is_ok() {
                inode.payload = p;
                return Ok(());
            }
            // overflow: convert to hashed, then insert there
            self.dir_to_hashed(t, ag, inode)?;
            if self.dir_find(t, inode, entry.name.as_str())?.is_some() {
                return Err(FsError::Exists);
            }
            if inode.format != FMT_EXTENT && inode.format != FMT_TREE {
                return Err(FsError::DirFormat(inode.format));
            }
        }
        self.hashed_insert(t, ag, inode, entry)
    }
}

/// Whether the entries and one more fit a bucket.
fn room_for(entries: &Vec<HEntry>, add: &HEntry, bs: usize) -> (r: bool)
    requires
        512 <= bs <= 0x8000_0000,
    ensures
        r == bucket::fits_with(bs as int, bucket::hents(entries@), add@),
{
    let n = utf16_units(add.name.as_str()).len();
    match entries_size(entries, bs) {
        None => {
            proof {
                bucket::lemma_hents_bytes_len(bucket::hents(entries@));
            }
            false
        },
        Some(used) => {
            if n > 0x4000_0000 {
                false
            } else {
                let k = bucket::entry_size(n);
                used <= bs - BK_HDR && k <= bs - BK_HDR - used
            }
        },
    }
}

// --- merging ------------------------------------------------------------------

/// The slot that differs from `i` in bit `k`.
pub open spec fn flipped(i: int, k: int) -> int {
    if record::bit_on(i, k) {
        i - record::two_to(k)
    } else {
        i + record::two_to(k)
    }
}

/// Two buckets that can become one.
#[verifier::ext_equal]
pub struct Pair {
    pub bno: u32,
    pub bblk: u64,
    pub depth: u8,
    pub es: Seq<Hent>,
    pub bno2: u32,
    pub bblk2: u64,
    pub es2: Seq<Hent>,
}

/// The bucket of slot `i` and its buddy, if they can merge: same local depth,
/// differing in the deepest hash bit, together within one block.
#[verifier::opaque]
pub open spec fn pair_at(v: Vol, t: Map<u64, Seq<u8>>, m: Mp, h: Dh, i: int) -> Result<
    Option<Pair>,
    FsError,
> {
    let bno = h.table[i];
    match bucket_of(v, t, m, bno) {
        Err(e) => Err(e),
        Ok((bblk, ld, es)) => if ld == 0 {
            Ok(None)
        } else if ld > h.depth {
            Err(FsError::Corrupt)
        } else {
            let bno2 = h.table[flipped(i, h.depth - ld)];
            if bno2 == bno {
                Ok(None)
            } else {
                match bucket_of(v, t, m, bno2) {
                    Err(e) => Err(e),
                    Ok((bblk2, ld2, es2)) => if ld2 != ld || BK_HDR + bucket::hents_size(es)
                        + bucket::hents_size(es2) > v.bs {
                        Ok(None)
                    } else {
                        Ok(Some(Pair { bno, bblk, depth: ld, es, bno2, bblk2, es2 }))
                    },
                }
            }
        },
    }
}

/// The first pair from slot `i` on.
pub open spec fn first_pair(v: Vol, t: Map<u64, Seq<u8>>, m: Mp, h: Dh, i: int) -> Result<
    Option<Pair>,
    FsError,
>
    decreases h.table.len() - i,
{
    if i >= h.table.len() {
        Ok(None)
    } else {
        match pair_at(v, t, m, h, i) {
            Err(e) => Err(e),
            Ok(Some(x)) => Ok(Some(x)),
            Ok(None) => first_pair(v, t, m, h, i + 1),
        }
    }
}

/// The table with bucket `from` replaced by `to`.
pub open spec fn replaced(table: Seq<u32>, from: u32, to: u32) -> Seq<u32> {
    table.map_values(
        |b: u32|
            if b == from {
                to
            } else {
                b
            },
    )
}

/// Merging a pair: the second bucket is left empty and its number freed.
#[verifier::opaque]
pub open spec fn pair_merged(v: Vol, t: Map<u64, Seq<u8>>, hblk: u64, h: Dh, x: Pair) -> (
    Map<u64, Seq<u8>>,
    Result<(), FsError>,
) {
    let (t1, r1) = bucket_to(v, t, x.bblk, (x.depth - 1) as u8, x.es + x.es2);
    match r1 {
        Err(e) => (t1, Err(e)),
        Ok(_) => {
            let (t2, r2) = bucket_to(v, t1, x.bblk2, 0, Seq::empty());
            match r2 {
                Err(e) => (t2, Err(e)),
                Ok(_) => dh_to(
                    v,
                    t2,
                    hblk,
                    Dh {
                        table: replaced(h.table, x.bno2, x.bno),
                        free: h.free.push(x.bno2),
                        ..h
                    },
                ),
            }
        },
    }
}

/// Every two neighbouring slots agree.
pub open spec fn all_paired(table: Seq<u32>) -> bool {
    forall|i: int| 0 <= i < table.len() / 2 ==> #[trigger] table[2 * i] == table[2 * i + 1]
}

/// Every second slot.
pub open spec fn halved(table: Seq<u32>) -> Seq<u32> {
    Seq::new(table.len() / 2, |i: int| table[2 * i])
}

/// One round of merging: a pair of buckets, else the table by half. Whether
/// anything was done.
#[verifier::opaque]
pub open spec fn merge_round(v: Vol, t: Map<u64, Seq<u8>>, m: Mp) -> (
    Map<u64, Seq<u8>>,
    Result<bool, FsError>,
) {
    match dh_of(v, t, m) {
        Err(e) => (t, Err(e)),
        Ok((hblk, h)) => if h.depth == 0 {
            (t, Ok(false))
        } else {
            match first_pair(v, t, m, h, 0) {
                Err(e) => (t, Err(e)),
                Ok(Some(x)) => {
                    let (t1, r1) = pair_merged(v, t, hblk, h, x);
                    match r1 {
                        Err(e) => (t1, Err(e)),
                        Ok(_) => (t1, Ok(true)),
                    }
                },
                Ok(None) => if all_paired(h.table) {
                    let (t1, r1) = dh_to(
                        v,
                        t,
                        hblk,
                        Dh { depth: (h.depth - 1) as u8, table: halved(h.table), ..h },
                    );
                    match r1 {
                        Err(e) => (t1, Err(e)),
                        Ok(_) => (t1, Ok(true)),
                    }
                } else {
                    (t, Ok(false))
                },
            }
        },
    }
}

/// Merging until nothing is left to merge, in at most `rounds` rounds.
pub open spec fn merged(v: Vol, t: Map<u64, Seq<u8>>, m: Mp, rounds: int) -> (
    Map<u64, Seq<u8>>,
    Result<(), FsError>,
)
    decreases rounds,
{
    if rounds <= 0 {
        (t, Err(FsError::Corrupt))
    } else {
        let (t1, r1) = merge_round(v, t, m);
        match r1 {
            Err(e) => (t1, Err(e)),
            Ok(false) => (t1, Ok(())),
            Ok(true) => merged(v, t1, m, rounds - 1),
        }
    }
}

struct PairBuf {
    bno: u32,
    bblk: u64,
    depth: u8,
    es: Vec<HEntry>,
    bno2: u32,
    bblk2: u64,
    es2: Vec<HEntry>,
}

impl PairBuf {
    spec fn spec_pair(&self) -> Pair {
        Pair {
            bno: self.bno,
            bblk: self.bblk,
            depth: self.depth,
            es: bucket::hents(self.es@),
            bno2: self.bno2,
            bblk2: self.bblk2,
            es2: bucket::hents(self.es2@),
        }
    }
}

/// The slot that differs from `i` in bit `k`.
fn flip(i: usize, k: u32, depth: u32) -> (r: usize)
    requires
        k < depth <= 31,
        i < record::two_to(depth as int),
    ensures
        r == flipped(i as int, k as int),
        r < record::two_to(depth as int),
{
    proof {
        record::lemma_bit_bound(i as int, k as int, depth as int);
        record::lemma_bit_put(i as int, k as int, 0);
        assert(record::two_to(31) == 0x8000_0000) by {
            reveal_with_fuel(record::two_to, 32);
        }
        bucket::lemma_two_to_monotonic(depth as int, 31);
    }
    let w = record::power(k) as usize;
    if bit_of(i as u64, k) {
        i - w
    } else {
        i + w
    }
}

/// The entries of both lists, one list behind the other.
fn joined(a: &Vec<HEntry>, b: &Vec<HEntry>) -> (r: Vec<HEntry>)
    ensures
        bucket::hents(r@) == bucket::hents(a@) + bucket::hents(b@),
{
    let mut out: Vec<HEntry> = Vec::new();
    let mut i: usize = 0;
    let ghost x = bucket::hents(a@);
    let ghost y = bucket::hents(b@);
    assert(bucket::hents(out@) =~= x.take(0));
    while i < a.len()
        invariant
            i <= a@.len(),
            x == bucket::hents(a@),
            bucket::hents(out@) == x.take(i as int),
        decreases a@.len() - i,
    {
        let ghost before = bucket::hents(out@);
        let e = a[i].copy();
        out.push(e);
        i = i + 1;
        assert(bucket::hents(out@) =~= before.push(e@));
        assert(bucket::hents(out@) =~= x.take(i as int));
    }
    let mut j: usize = 0;
    assert(bucket::hents(out@) =~= x + y.take(0));
    while j < b.len()
        invariant
            j <= b@.len(),
            y == bucket::hents(b@),
            bucket::hents(out@) == x + y.take(j as int),
        decreases b@.len() - j,
    {
        let ghost before = bucket::hents(out@);
        let e = b[j].copy();
        out.push(e);
        j = j + 1;
        assert(bucket::hents(out@) =~= before.push(e@));
        assert(bucket::hents(out@) =~= x + y.take(j as int));
    }
    assert(y.take(y.len() as int) =~= y);
    out
}

impl Gofs {
    /// The bucket of slot `i` and its buddy, if they can merge.
    fn find_pair_at(&self, t: &Txn, inode: &Inode, h: &DirHeader, i: usize) -> (r: Result<
        Option<PairBuf>,
        FsError,
    >)
        requires
            self.wf(),
            self.sb.blocksize >= 2048,
            t.wf(self.sb.blocksize),
            h.depth <= 31,
            h.table@.len() == record::two_to(h.depth as int),
            i < h.table@.len(),
        ensures
            match r {
                Ok(Some(x)) => pair_at(
                    self.vol(),
                    t@,
                    mapping::mp_of(*inode),
                    h@,
                    i as int,
                ) == Ok::<Option<Pair>, FsError>(Some(x.spec_pair())) && x.depth > 0,
                Ok(None) => pair_at(
                    self.vol(),
                    t@,
                    mapping::mp_of(*inode),
                    h@,
                    i as int,
                ) == Ok::<Option<Pair>, FsError>(None),
                Err(e) => pair_at(self.vol(), t@, mapping::mp_of(*inode), h@, i as int) == Err::<
                    Option<Pair>,
                    FsError,
                >(e),
            },
    {
        proof {
            reveal(pair_at);
            superblock::lemma_blocksize_bound(self.sb.blocksize);
        }
        let bs = self.sb.blocksize as usize;
        let bno = h.table[i];
        let (bblk, ld, es) = self.bucket_read(t, inode, bno)?;
        if ld == 0 {
            return Ok(None);
        }
        if ld > h.depth {
            return Err(FsError::Corrupt);
        }
        let bno2 = h.table[flip(i, (h.depth - ld) as u32, h.depth as u32)];
        if bno2 == bno {
            return Ok(None);
        }
        let (bblk2, ld2, es2) = self.bucket_read(t, inode, bno2)?;
        if ld2 != ld {
            return Ok(None);
        }
        proof {
            bucket::lemma_hents_bytes_len(bucket::hents(es@));
            bucket::lemma_hents_bytes_len(bucket::hents(es2@));
        }
        let a = match entries_size(&es, bs) {
            Some(n) => n,
            None => return Ok(None),
        };
        let b = match entries_size(&es2, bs) {
            Some(n) => n,
            None => return Ok(None),
        };
        if a > bs - BK_HDR || b > bs - BK_HDR - a {
            return Ok(None);
        }
        let x = PairBuf { bno, bblk, depth: ld, es, bno2, bblk2, es2 };
        Ok(Some(x))
    }

    /// The first pair of buckets that can merge.
    fn find_pair(&self, t: &Txn, inode: &Inode, h: &DirHeader) -> (r: Result<
        Option<PairBuf>,
        FsError,
    >)
        requires
            self.wf(),
            self.sb.blocksize >= 2048,
            t.wf(self.sb.blocksize),
            h.depth <= 31,
            h.table@.len() == record::two_to(h.depth as int),
        ensures
            match r {
                Ok(Some(x)) => first_pair(
                    self.vol(),
                    t@,
                    mapping::mp_of(*inode),
                    h@,
                    0,
                ) == Ok::<Option<Pair>, FsError>(Some(x.spec_pair())) && x.depth > 0,
                Ok(None) => first_pair(self.vol(), t@, mapping::mp_of(*inode), h@, 0) == Ok::<
                    Option<Pair>,
                    FsError,
                >(None),
                Err(e) => first_pair(self.vol(), t@, mapping::mp_of(*inode), h@, 0) == Err::<
                    Option<Pair>,
                    FsError,
                >(e),
            },
    {
        let mut i: usize = 0;
        while i < h.table.len()
            invariant
                i <= h.table@.len(),
                self.wf(),
                self.sb.blocksize >= 2048,
                t.wf(self.sb.blocksize),
                h.depth <= 31,
                h.table@.len() == record::two_to(h.depth as int),
                first_pair(self.vol(), t@, mapping::mp_of(*inode), h@, 0) == first_pair(
                    self.vol(),
                    t@,
                    mapping::mp_of(*inode),
                    h@,
                    i as int,
                ),
            decreases h.table@.len() - i,
        {
            if let Some(x) = self.find_pair_at(t, inode, h, i)? {
                return Ok(Some(x));
            }
            i = i + 1;
        }
        Ok(None)
    }

    /// Merge a pair of buckets.
    fn merge_pair(&self, t: &mut Txn, h: DirHeader, x: PairBuf) -> (r: Result<(), FsError>)
        requires
            self.wf(),
            self.sb.blocksize >= 2048,
            old(t).wf(self.sb.blocksize),
            x.depth > 0,
        ensures
            final(t).wf(self.sb.blocksize),
            (final(t)@, r) == pair_merged(self.vol(), old(t)@, h.blk, h@, x.spec_pair()),
    {
        proof {
            reveal(pair_merged);
        }
        let all = joined(&x.es, &x.es2);
        self.bucket_write(t, x.bblk, x.depth - 1, &all)?;
        let none: Vec<HEntry> = Vec::new();
        assert(bucket::hents(none@) =~= Seq::empty());
        self.bucket_write(t, x.bblk2, 0, &none)?;  // freed bucket left empty
        let table = replace_all(&h.table, x.bno2, x.bno);
        let mut freelist = h.freelist;
        freelist.push(x.bno2);
        let h1 = DirHeader { table, freelist, blk: h.blk, depth: h.depth, nbuckets: h.nbuckets };
        self.dhdr_write(t, &h1)
    }

    /// One round of merging.
    fn merge_once(&self, t: &mut Txn, inode: &Inode) -> (r: Result<bool, FsError>)
        requires
            self.wf(),
            self.sb.blocksize >= 2048,
            old(t).wf(self.sb.blocksize),
        ensures
            final(t).wf(self.sb.blocksize),
            (final(t)@, r) == merge_round(self.vol(), old(t)@, mapping::mp_of(*inode)),
    {
        proof {
            reveal(merge_round);
        }
        let h = self.dhdr_read(t, inode)?;
        if h.depth == 0 {
            return Ok(false);
        }
        if let Some(x) = self.find_pair(t, inode, &h)? {
            self.merge_pair(t, h, x)?;
            return Ok(true);
        }
        // halve the table when every two neighbours agree
        match halve(&h.table) {
            Some(table) => {
                let h1 = DirHeader {
                    table,
                    freelist: h.freelist,
                    blk: h.blk,
                    depth: h.depth - 1,
                    nbuckets: h.nbuckets,
                };
                self.dhdr_write(t, &h1)?;
                Ok(true)
            },
            None => Ok(false),
        }
    }

    /// Buddy-merge pass: while a bucket and its buddy fit one block, merge
    /// them; then halve the table while every slot pair is identical. Freed
    /// bucket numbers go on the header's freelist for later splits.
    fn try_merge(&self, t: &mut Txn, inode: &Inode) -> (r: Result<(), FsError>)
        requires
            self.wf(),
            self.sb.blocksize >= 2048,
            old(t).wf(self.sb.blocksize),
        ensures
            final(t).wf(self.sb.blocksize),
            (final(t)@, r) == merged(
                self.vol(),
                old(t)@,
                mapping::mp_of(*inode),
                self.sb.blocksize as int,
            ),
    {
        let mut rounds = self.sb.blocksize;
        while rounds > 0
            invariant
                self.wf(),
                self.sb.blocksize >= 2048,
                t.wf(self.sb.blocksize),
                merged(
                    self.vol(),
                    old(t)@,
                    mapping::mp_of(*inode),
                    self.sb.blocksize as int,
                ) == merged(self.vol(), t@, mapping::mp_of(*inode), rounds as int),
            decreases rounds,
        {
            if !self.merge_once(t, inode)? {
                return Ok(());
            }
            rounds = rounds - 1;
        }
        Err(FsError::Corrupt)
    }
}

/// The table with one bucket number replaced.
fn replace_all(table: &Vec<u32>, from: u32, to: u32) -> (r: Vec<u32>)
    ensures
        r@ == replaced(table@, from, to),
{
    let mut out: Vec<u32> = Vec::new();
    let mut i: usize = 0;
    while i < table.len()
        invariant
            i <= table@.len(),
            out@.len() == i,
            forall|k: int| 0 <= k < i ==> out@[k] == replaced(table@, from, to)[k],
        decreases table@.len() - i,
    {
        let b = table[i];
        out.push(if b == from { to } else { b });
        i = i + 1;
    }
    assert(out@ =~= replaced(table@, from, to));
    out
}

/// Every second slot, if every two neighbours agree.
fn halve(table: &Vec<u32>) -> (r: Option<Vec<u32>>)
    ensures
        match r {
            Some(v) => all_paired(table@) && v@ == halved(table@),
            None => !all_paired(table@),
        },
{
    let n = table.len() / 2;
    let mut out: Vec<u32> = Vec::new();
    let mut i: usize = 0;
    while i < n
        invariant
            i <= n == table@.len() / 2,
            table.len() == table@.len(),
            out@.len() == i,
            forall|k: int| 0 <= k < i ==> out@[k] == table@[2 * k],
            forall|k: int| 0 <= k < i ==> #[trigger] table@[2 * k] == table@[2 * k + 1],
        decreases n - i,
    {
        if table[2 * i] != table[2 * i + 1] {
            assert(table@[2 * i as int] != table@[2 * i as int + 1]);
            return None;
        }
        out.push(table[2 * i]);
        i = i + 1;
    }
    assert(out@ =~= halved(table@));
    Some(out)
}

// --- listing ------------------------------------------------------------------

/// Whether `a` comes no later than `b` in order of code points.
pub open spec fn name_le(a: Seq<char>, b: Seq<char>) -> bool
    decreases a.len(),
{
    if a.len() == 0 {
        true
    } else if b.len() == 0 {
        false
    } else if a[0] as u32 == b[0] as u32 {
        name_le(a.skip(1), b.skip(1))
    } else {
        (a[0] as u32) < (b[0] as u32)
    }
}

/// `e` put among entries in order of name, behind its equals.
pub open spec fn put_by_name(es: Seq<Dirent>, e: Dirent) -> Seq<Dirent>
    decreases es.len(),
{
    if es.len() == 0 || name_le(es.last().name, e.name) {
        es.push(e)
    } else {
        put_by_name(es.drop_last(), e).push(es.last())
    }
}

/// The entries in order of name; equals keep their order.
pub open spec fn by_name(es: Seq<Dirent>) -> Seq<Dirent>
    decreases es.len(),
{
    if es.len() == 0 {
        es
    } else {
        put_by_name(by_name(es.drop_last()), es.last())
    }
}

/// The entries without their hashes.
pub open spec fn plain(es: Seq<Hent>) -> Seq<Dirent> {
    es.map_values(|e: Hent| bucket::dirent_of(e))
}

/// The entries of the buckets from `b` on, but for the freed ones, behind
/// `acc`.
pub open spec fn gather(v: Vol, t: Map<u64, Seq<u8>>, m: Mp, h: Dh, b: int, acc: Seq<Dirent>) -> Result<
    Seq<Dirent>,
    FsError,
>
    decreases h.nbuckets - b,
{
    if b >= h.nbuckets {
        Ok(acc)
    } else if h.free.contains(b as u32) {
        gather(v, t, m, h, b + 1, acc)
    } else {
        match bucket_of(v, t, m, b as u32) {
            Err(e) => Err(e),
            Ok((_, _, es)) => gather(v, t, m, h, b + 1, acc + plain(es)),
        }
    }
}

/// All entries of a directory.
pub open spec fn listed(v: Vol, t: Map<u64, Seq<u8>>, is_dir: bool, m: Mp) -> Result<
    Seq<Dirent>,
    FsError,
> {
    if !is_dir {
        Err(FsError::NotADirectory)
    } else if m.format == FMT_EMPTY {
        Ok(Seq::empty())
    } else if m.format == FMT_EMBED {
        Ok(dirent::dir_entries_of(m.payload))
    } else if m.format != FMT_EXTENT && m.format != FMT_TREE {
        Err(FsError::DirFormat(m.format))
    } else {
        match dh_of(v, t, m) {
            Err(e) => Err(e),
            Ok((_, h)) => match gather(v, t, m, h, 0, Seq::empty()) {
                Err(e) => Err(e),
                Ok(es) => Ok(by_name(es)),
            },
        }
    }
}

/// The code points of a name.
fn code_points(s: &str) -> (r: Vec<u32>)
    ensures
        r@.len() == s@.len(),
        forall|i: int| 0 <= i < s@.len() ==> #[trigger] r@[i] == s@[i] as u32,
{
    let n = s.unicode_len();
    let mut out: Vec<u32> = Vec::new();
    let mut i: usize = 0;
    while i < n
        invariant
            i <= n == s@.len(),
            out@.len() == i,
            forall|k: int| 0 <= k < i ==> #[trigger] out@[k] == s@[k] as u32,
        decreases n - i,
    {
        out.push(s.get_char(i) as u32);
        i = i + 1;
    }
    out
}

/// Whether `a` comes no later than `b`, given by their code points.
fn no_later(a: &Vec<u32>, b: &Vec<u32>, Ghost(x): Ghost<Seq<char>>, Ghost(y): Ghost<Seq<char>>) -> (r:
    bool)
    requires
        a@.len() == x.len(),
        b@.len() == y.len(),
        forall|i: int| 0 <= i < x.len() ==> #[trigger] a@[i] == x[i] as u32,
        forall|i: int| 0 <= i < y.len() ==> #[trigger] b@[i] == y[i] as u32,
    ensures
        r == name_le(x, y),
{
    let mut i: usize = 0;
    assert(x.skip(0) =~= x);
    assert(y.skip(0) =~= y);
    while i < a.len() && i < b.len()
        invariant
            i <= a@.len() == x.len(),
            i <= b@.len() == y.len(),
            forall|k: int| 0 <= k < x.len() ==> #[trigger] a@[k] == x[k] as u32,
            forall|k: int| 0 <= k < y.len() ==> #[trigger] b@[k] == y[k] as u32,
            name_le(x, y) == name_le(x.skip(i as int), y.skip(i as int)),
        decreases a@.len() - i,
    {
        let p = a[i];
        let q = b[i];
        assert(x.skip(i as int)[0] == x[i as int]);
        assert(y.skip(i as int)[0] == y[i as int]);
        if p != q {
            return p < q;
        }
        assert(x.skip(i as int).skip(1) =~= x.skip(i + 1));
        assert(y.skip(i as int).skip(1) =~= y.skip(i + 1));
        i = i + 1;
    }
    i == a.len()
}

/// The entries in order of name.
#[verifier::rlimit(40)]
fn sort_by_name(es: &Vec<DirEntry>) -> (r: Vec<DirEntry>)
    ensures
        dirent::dirents(r@) == by_name(dirent::dirents(es@)),
{
    let mut out: Vec<DirEntry> = Vec::new();
    let mut keys: Vec<Vec<u32>> = Vec::new();
    let mut i: usize = 0;
    let ghost s = dirent::dirents(es@);
    assert(s.take(0) =~= Seq::<Dirent>::empty());
    assert(dirent::dirents(out@) =~= by_name(s.take(0)));
    while i < es.len()
        invariant
            i <= es@.len() == s.len(),
            s == dirent::dirents(es@),
            dirent::dirents(out@) == by_name(s.take(i as int)),
            keys@.len() == out@.len(),
            forall|k: int| 0 <= k < out@.len() ==> key_of(#[trigger] keys@[k]@, out@[k].name@),
        decreases es@.len() - i,
    {
        let e = es[i].copy();
        let key = code_points(e.name.as_str());
        let ghost base = dirent::dirents(out@);
        let ghost d = e@;
        let mut k = out.len();
        assert(base.take(k as int) =~= base);
        assert(base.skip(k as int) =~= Seq::<Dirent>::empty());
        assert(put_by_name(base, d) =~= put_by_name(base.take(k as int), d) + base.skip(k as int));
        while k > 0
            invariant
                k <= out@.len() == base.len(),
                keys@.len() == out@.len(),
                base == dirent::dirents(out@),
                d == e@,
                key_of(key@, e.name@),
                forall|j: int|
                    0 <= j < out@.len() ==> key_of(#[trigger] keys@[j]@, out@[j].name@),
                put_by_name(base, d) == put_by_name(base.take(k as int), d) + base.skip(k as int),
            ensures
                k <= out@.len(),
                put_by_name(base, d) == base.take(k as int).push(d) + base.skip(k as int),
            decreases k,
        {
            let ghost b = base.take(k as int);
            assert(b.last() == out@[k - 1]@);
            assert(key_of(keys@[k - 1]@, out@[k - 1].name@));
            if no_later(
                &keys[k - 1],
                &key,
                Ghost(out@[k - 1].name@),
                Ghost(e.name@),
            ) {
                assert(put_by_name(b, d) =~= b.push(d));
                break ;
            }
            proof {
                assert(b.drop_last() =~= base.take(k - 1));
                assert(put_by_name(b, d) == put_by_name(b.drop_last(), d).push(b.last()));
                assert(put_by_name(b.drop_last(), d).push(b.last()) + base.skip(k as int)
                    =~= put_by_name(base.take(k - 1), d) + base.skip(k - 1));
            }
            k = k - 1;
            if k == 0 {
                assert(base.take(0) =~= Seq::<Dirent>::empty());
                assert(put_by_name(base.take(0), d) =~= base.take(0).push(d));
            }
        }
        let ghost before = out@;
        out.insert(k, e);
        keys.insert(k, key);
        proof {
            assert(base.take(k as int).push(d) + base.skip(k as int) =~= base.insert(
                k as int,
                d,
            ));
            assert(dirent::dirents(out@) =~= base.insert(k as int, d));
            assert(s.take(i + 1).drop_last() =~= s.take(i as int));
            assert(s.take(i + 1).last() == es@[i as int]@);
        }
        i = i + 1;
    }
    assert(s.take(s.len() as int) =~= s);
    out
}

/// `key` holds the code points of `name`.
spec fn key_of(key: Seq<u32>, name: Seq<char>) -> bool {
    &&& key.len() == name.len()
    &&& forall|i: int| 0 <= i < name.len() ==> #[trigger] key[i] == name[i] as u32
}

impl Gofs {
    /// All entries of a directory, any format; a hashed one's in order of name.
    pub fn dir_list(&self, t: &Txn, inode: &Inode) -> (r: Result<Vec<DirEntry>, FsError>)
        requires
            self.wf(),
            self.sb.blocksize >= 2048,
            t.wf(self.sb.blocksize),
        ensures
            match r {
                Ok(v) => listed(
                    self.vol(),
                    t@,
                    inode.spec_is_dir(),
                    mapping::mp_of(*inode),
                ) == Ok::<Seq<Dirent>, FsError>(dirent::dirents(v@)),
                Err(e) => listed(
                    self.vol(),
                    t@,
                    inode.spec_is_dir(),
                    mapping::mp_of(*inode),
                ) == Err::<Seq<Dirent>, FsError>(e),
            },
    {
        if !inode.is_dir() {
            return Err(FsError::NotADirectory);
        }
        if inode.format == FMT_EMPTY {
            let none: Vec<DirEntry> = Vec::new();
            assert(dirent::dirents(none@) =~= Seq::empty());
            return Ok(none);
        }
        if inode.format == FMT_EMBED {
            return Ok(dir_parse(&inode.payload));
        }
        if inode.format != FMT_EXTENT && inode.format != FMT_TREE {
            return Err(FsError::DirFormat(inode.format));
        }
        let h = self.dhdr_read(t, inode)?;
        let all = self.gather_entries(t, inode, &h)?;
        Ok(sort_by_name(&all))
    }

    /// The entries of all buckets in use, in order of bucket.
    fn gather_entries(&self, t: &Txn, inode: &Inode, h: &DirHeader) -> (r: Result<
        Vec<DirEntry>,
        FsError,
    >)
        requires
            self.wf(),
            self.sb.blocksize >= 2048,
            t.wf(self.sb.blocksize),
        ensures
            match r {
                Ok(v) => gather(
                    self.vol(),
                    t@,
                    mapping::mp_of(*inode),
                    h@,
                    0,
                    Seq::empty(),
                ) == Ok::<Seq<Dirent>, FsError>(dirent::dirents(v@)),
                Err(e) => gather(
                    self.vol(),
                    t@,
                    mapping::mp_of(*inode),
                    h@,
                    0,
                    Seq::empty(),
                ) == Err::<Seq<Dirent>, FsError>(e),
            },
    {
        let mut out: Vec<DirEntry> = Vec::new();
        let mut b: u32 = 0;
        assert(dirent::dirents(out@) =~= Seq::empty());
        while b < h.nbuckets
            invariant
                b <= h.nbuckets,
                self.wf(),
                self.sb.blocksize >= 2048,
                t.wf(self.sb.blocksize),
                gather(self.vol(), t@, mapping::mp_of(*inode), h@, 0, Seq::empty()) == gather(
                    self.vol(),
                    t@,
                    mapping::mp_of(*inode),
                    h@,
                    b as int,
                    dirent::dirents(out@),
                ),
            decreases h.nbuckets - b,
        {
            if !holds(&h.freelist, b) {
                let (_, _, es) = self.bucket_read(t, inode, b)?;
                append_plain(&mut out, &es);
            }
            b = b + 1;
        }
        Ok(out)
    }

    pub fn dir_count(&self, t: &Txn, inode: &Inode) -> (r: Result<usize, FsError>)
        requires
            self.wf(),
            self.sb.blocksize >= 2048,
            t.wf(self.sb.blocksize),
        ensures
            match r {
                Ok(n) => listed(
                    self.vol(),
                    t@,
                    inode.spec_is_dir(),
                    mapping::mp_of(*inode),
                ) matches Ok(s) && s.len() == n,
                Err(e) => listed(
                    self.vol(),
                    t@,
                    inode.spec_is_dir(),
                    mapping::mp_of(*inode),
                ) == Err::<Seq<Dirent>, FsError>(e),
            },
    {
        Ok(self.dir_list(t, inode)?.len())
    }
}

/// Append entries without their hashes.
fn append_plain(out: &mut Vec<DirEntry>, es: &Vec<HEntry>)
    ensures
        dirent::dirents(final(out)@) == dirent::dirents(old(out)@) + plain(bucket::hents(es@)),
{
    let ghost base = dirent::dirents(out@);
    let ghost s = plain(bucket::hents(es@));
    let mut i: usize = 0;
    assert(dirent::dirents(out@) =~= base + s.take(0));
    while i < es.len()
        invariant
            i <= es@.len() == s.len(),
            s == plain(bucket::hents(es@)),
            dirent::dirents(out@) == base + s.take(i as int),
        decreases es@.len() - i,
    {
        let ghost before = dirent::dirents(out@);
        let e = es[i].plain();
        out.push(e);
        assert(dirent::dirents(out@) =~= before.push(e@));
        assert(s[i as int] == e@);
        i = i + 1;
        assert(dirent::dirents(out@) =~= base + s.take(i as int));
    }
    assert(s.take(s.len() as int) =~= s);
}

// --- removal ------------------------------------------------------------------

/// The entries from `k` on appended to the payload `p`.
pub open spec fn repacked(p: Seq<u8>, es: Seq<Dirent>, k: int) -> Result<Seq<u8>, fmt::FmtError>
    decreases es.len() - k,
{
    if k >= es.len() {
        Ok(p)
    } else {
        match dirent::dir_appended(p, es[k]) {
            Err(e) => Err(e),
            Ok(q) => repacked(q, es, k + 1),
        }
    }
}

/// Removing an entry of an embedded directory: the rest is packed again.
pub open spec fn embed_removed(d: Dn, name: Seq<char>) -> (Dn, Result<Dirent, FsError>) {
    let es = dirent::dir_entries_of(d.m.payload);
    match entry_named(es, name, 0) {
        None => (d, Err(FsError::NotFound)),
        Some(i) => match repacked(fmt::zeros(INODE_PAYLOAD as nat), es.remove(i), 0) {
            Err(e) => (d, Err(FsError::Encode(e))),
            Ok(pl) => (
                Dn {
                    m: Mp {
                        format: if es.len() == 1 {
                            FMT_EMPTY
                        } else {
                            FMT_EMBED
                        },
                        payload: pl,
                    },
                    ..d
                },
                Ok(es[i]),
            ),
        },
    }
}

/// Freeing a directory that has no entry left.
pub open spec fn collapsed(v: Vol, p: Pool, is_dir: bool, d: Dn) -> (Pool, Dn, Result<(), FsError>) {
    match listed(v, p.t, is_dir, d.m) {
        Err(e) => (p, d, Err(e)),
        Ok(es) => if es.len() > 0 {
            (p, d, Ok(()))
        } else {
            let (p1, r1) = truncate::all_freed(v, p, d.m);
            match r1 {
                Err(e) => (p1, d, Err(e)),
                Ok(_) => (
                    p1,
                    Dn {
                        m: Mp { format: FMT_EMPTY, payload: fmt::zeros(INODE_PAYLOAD as nat) },
                        size: 0,
                        nblocks: 0,
                    },
                    Ok(()),
                ),
            }
        },
    }
}

/// Removing an entry of a hashed directory: its bucket is stored without it,
/// buckets merge, and an empty directory collapses.
pub open spec fn hashed_removed(
    v: Vol,
    p: Pool,
    uuid: Seq<u8>,
    is_dir: bool,
    d: Dn,
    name: Seq<char>,
) -> (Pool, Dn, Result<Dirent, FsError>) {
    let hash = bucket::name_hash(uuid, name);
    match dh_of(v, p.t, d.m) {
        Err(e) => (p, d, Err(e)),
        Ok((_, h)) => match bucket_of(v, p.t, d.m, bucket_for(h, hash)) {
            Err(e) => (p, d, Err(e)),
            Ok((bblk, ld, es)) => match hent_named(es, hash, name, 0) {
                None => (p, d, Err(FsError::NotFound)),
                Some(i) => {
                    let (t1, r1) = bucket_to(v, p.t, bblk, ld, es.remove(i));
                    match r1 {
                        Err(e) => (Pool { t: t1, ..p }, d, Err(e)),
                        Ok(_) => {
                            let (t2, r2) = merged(v, t1, d.m, v.bs as int);
                            match r2 {
                                Err(e) => (Pool { t: t2, ..p }, d, Err(e)),
                                Ok(_) => {
                                    let (p3, d3, r3) = collapsed(
                                        v,
                                        Pool { t: t2, ..p },
                                        is_dir,
                                        d,
                                    );
                                    match r3 {
                                        Err(e) => (p3, d3, Err(e)),
                                        Ok(_) => (p3, d3, Ok(bucket::dirent_of(es[i]))),
                                    }
                                },
                            }
                        },
                    }
                },
            },
        },
    }
}

/// Removing an entry by name: the entry.
pub open spec fn removed(
    v: Vol,
    p: Pool,
    uuid: Seq<u8>,
    is_dir: bool,
    d: Dn,
    name: Seq<char>,
) -> (Pool, Dn, Result<Dirent, FsError>) {
    if d.m.format == FMT_EMBED {
        let (d1, r1) = embed_removed(d, name);
        (p, d1, r1)
    } else if d.m.format == FMT_EXTENT || d.m.format == FMT_TREE {
        hashed_removed(v, p, uuid, is_dir, d, name)
    } else if d.m.format == FMT_EMPTY {
        (p, d, Err(FsError::NotFound))
    } else {
        (p, d, Err(FsError::DirFormat(d.m.format)))
    }
}

/// The view of a removal's result.
pub open spec fn res_view(r: Result<DirEntry, FsError>) -> Result<Dirent, FsError> {
    match r {
        Ok(e) => Ok(e@),
        Err(e) => Err(e),
    }
}

/// Pack entries into a fresh payload.
fn repack(es: &Vec<DirEntry>) -> (r: Result<[u8; 128], FsError>)
    ensures
        match repacked(fmt::zeros(INODE_PAYLOAD as nat), dirent::dirents(es@), 0) {
            Ok(pl) => r matches Ok(p) && p@ == pl,
            Err(e) => r matches Err(x) && x == FsError::Encode(e),
        },
{
    let mut p = [0u8; 128];
    let ghost s = dirent::dirents(es@);
    assert(p@ =~= fmt::zeros(128));
    let mut k: usize = 0;
    while k < es.len()
        invariant
            k <= es@.len() == s.len(),
            s == dirent::dirents(es@),
            repacked(fmt::zeros(INODE_PAYLOAD as nat), s, 0) == repacked(p@, s, k as int),
        decreases es@.len() - k,
    {
        assert(s[k as int] == es@[k as int]@);
        if let Err(e) = dir_append(&mut p, &es[k]) {
            return Err(FsError::Encode(e));
        }
        k = k + 1;
    }
    Ok(p)
}

impl Gofs {
    /// Remove an entry by name. Returns it. An embedded directory is packed
    /// again; a hashed directory that becomes completely empty collapses.
    pub fn dir_remove(&mut self, t: &mut Txn, inode: &mut Inode, name: &str) -> (r: Result<
        DirEntry,
        FsError,
    >)
        requires
            old(self).wf(),
            old(self).sb.blocksize >= 2048,
            old(t).wf(old(self).sb.blocksize),
        ensures
            final(self).wf(),
            final(t).wf(final(self).sb.blocksize),
            allocator::only_counters(*old(self), *final(self)),
            only_dir(*old(inode), *final(inode)),
            (allocator::pool_of(*final(self), *final(t)), dn_of(*final(inode)), res_view(r))
                == removed(
                old(self).vol(),
                allocator::pool_of(*old(self), *old(t)),
                old(self).sb.uuid@,
                old(inode).spec_is_dir(),
                dn_of(*old(inode)),
                name@,
            ),
    {
        if inode.format == FMT_EMBED {
            return Gofs::remove_embedded(inode, name);
        }
        if inode.format == FMT_EMPTY {
            return Err(FsError::NotFound);
        }
        if inode.format != FMT_EXTENT && inode.format != FMT_TREE {
            return Err(FsError::DirFormat(inode.format));
        }
        let hash = hash_name(&self.sb.uuid, name);
        let h = self.dhdr_read(t, inode)?;
        let bno = h.table[bucket_index(hash, h.depth)];
        let (bblk, ld, mut es) = self.bucket_read(t, inode, bno)?;
        let i = match hposition_of(&es, hash, name) {
            Some(i) => i,
            None => return Err(FsError::NotFound),
        };
        let ghost all = bucket::hents(es@);
        let gone = es.remove(i);
        assert(bucket::hents(es@) =~= all.remove(i as int));
        assert(all[i as int] == gone@);
        self.bucket_write(t, bblk, ld, &es)?;
        self.try_merge(t, inode)?;
        if self.dir_count(t, inode)? == 0 {
            // collapse: free the directory's blocks entirely
            self.map_free_all(t, inode)?;
        }
        Ok(gone.plain())
    }

    fn remove_embedded(inode: &mut Inode, name: &str) -> (r: Result<DirEntry, FsError>)
        requires
            old(inode).format == FMT_EMBED,
        ensures
            only_dir(*old(inode), *final(inode)),
            (dn_of(*final(inode)), res_view(r)) == embed_removed(dn_of(*old(inode)), name@),
    {
        let mut es = dir_parse(&inode.payload);
        let ghost all = dirent::dirents(es@);
        let i = match position_of(&es, name) {
            Some(i) => i,
            None => return Err(FsError::NotFound),
        };
        let gone = es.remove(i);
        assert(dirent::dirents(es@) =~= all.remove(i as int));
        assert(all[i as int] == gone@);
        let p = repack(&es)?;
        inode.payload = p;
        if es.len() == 0 {
            inode.format = FMT_EMPTY;
        }
        Ok(gone)
    }
}

// --- validation ---------------------------------------------------------------

/// What can be wrong with the structure of a hashed directory.
#[derive(Debug, Clone, Copy, PartialEq, Eq, Structural)]
pub enum DirFlaw {
    /// A table slot names a bucket that is not there.
    SlotRange { slot: u64, bucket: u32 },
    /// A table slot names a freed bucket.
    SlotFreed { slot: u64, bucket: u32 },
    /// The freelist names a bucket that is not there.
    FreeRange { bucket: u32 },
    /// A bucket is deeper than the table.
    TooDeep { bucket: u32, local: u8 },
    /// An entry's cached hash is not that of its name.
    StoredHash { bucket: u32, entry: u64 },
    /// An entry stands in a bucket that its hash does not lead to.
    WrongBucket { bucket: u32, entry: u64 },
    /// A bucket cannot be read.
    BadBucket { bucket: u32, error: FsError },
}

/// What is wrong with one table slot.
pub open spec fn slot_flaws(h: Dh, i: int) -> Seq<DirFlaw> {
    let b = h.table[i];
    (if b >= h.nbuckets {
        seq![DirFlaw::SlotRange { slot: i as u64, bucket: b }]
    } else {
        Seq::empty()
    }) + (if h.free.contains(b) {
        seq![DirFlaw::SlotFreed { slot: i as u64, bucket: b }]
    } else {
        Seq::empty()
    })
}

/// What is wrong with the first `n` table slots.
pub open spec fn table_flaws(h: Dh, n: int) -> Seq<DirFlaw>
    decreases n,
{
    if n <= 0 {
        Seq::empty()
    } else {
        table_flaws(h, n - 1) + slot_flaws(h, n - 1)
    }
}

/// What is wrong with the first `n` freelist entries.
pub open spec fn free_flaws(h: Dh, n: int) -> Seq<DirFlaw>
    decreases n,
{
    if n <= 0 {
        Seq::empty()
    } else if h.free[n - 1] >= h.nbuckets {
        free_flaws(h, n - 1).push(DirFlaw::FreeRange { bucket: h.free[n - 1] })
    } else {
        free_flaws(h, n - 1)
    }
}

/// What is wrong with entry `k` of bucket `b`.
pub open spec fn entry_flaws(uuid: Seq<u8>, h: Dh, b: u32, es: Seq<Hent>, k: int) -> Seq<DirFlaw> {
    let hash = bucket::name_hash(uuid, es[k].name);
    (if hash != es[k].hash {
        seq![DirFlaw::StoredHash { bucket: b, entry: k as u64 }]
    } else {
        Seq::empty()
    }) + (if bucket_for(h, hash) != b {
        seq![DirFlaw::WrongBucket { bucket: b, entry: k as u64 }]
    } else {
        Seq::empty()
    })
}

/// What is wrong with the first `n` entries of bucket `b`.
pub open spec fn entries_flaws(uuid: Seq<u8>, h: Dh, b: u32, es: Seq<Hent>, n: int) -> Seq<DirFlaw>
    decreases n,
{
    if n <= 0 {
        Seq::empty()
    } else {
        entries_flaws(uuid, h, b, es, n - 1) + entry_flaws(uuid, h, b, es, n - 1)
    }
}

/// What is wrong with bucket `b`.
pub open spec fn bucket_flaws(
    v: Vol,
    t: Map<u64, Seq<u8>>,
    uuid: Seq<u8>,
    m: Mp,
    h: Dh,
    b: u32,
) -> Seq<DirFlaw> {
    match bucket_of(v, t, m, b) {
        Err(error) => seq![DirFlaw::BadBucket { bucket: b, error }],
        Ok((_, ld, es)) => (if ld > h.depth {
            seq![DirFlaw::TooDeep { bucket: b, local: ld }]
        } else {
            Seq::empty()
        }) + entries_flaws(uuid, h, b, es, es.len() as int),
    }
}

/// What is wrong with the first `n` buckets, but for the freed ones.
pub open spec fn buckets_flaws(
    v: Vol,
    t: Map<u64, Seq<u8>>,
    uuid: Seq<u8>,
    m: Mp,
    h: Dh,
    n: int,
) -> Seq<DirFlaw>
    decreases n,
{
    if n <= 0 {
        Seq::empty()
    } else if h.free.contains((n - 1) as u32) {
        buckets_flaws(v, t, uuid, m, h, n - 1)
    } else {
        buckets_flaws(v, t, uuid, m, h, n - 1) + bucket_flaws(v, t, uuid, m, h, (n - 1) as u32)
    }
}

/// What is wrong with the structure of a directory: bucket placement and
/// depths. The other formats have nothing structural to check.
pub open spec fn dir_flaws(v: Vol, t: Map<u64, Seq<u8>>, uuid: Seq<u8>, m: Mp) -> Result<
    Seq<DirFlaw>,
    FsError,
> {
    if m.format != FMT_EXTENT && m.format != FMT_TREE {
        Ok(Seq::empty())
    } else {
        match dh_of(v, t, m) {
            Err(e) => Err(e),
            Ok((_, h)) => Ok(
                table_flaws(h, h.table.len() as int) + free_flaws(h, h.free.len() as int)
                    + buckets_flaws(v, t, uuid, m, h, h.nbuckets as int),
            ),
        }
    }
}

impl Gofs {
    /// Structural directory validation: bucket placement and depths.
    pub fn dir_check(&self, t: &Txn, inode: &Inode) -> (r: Result<Vec<DirFlaw>, FsError>)
        requires
            self.wf(),
            self.sb.blocksize >= 2048,
            t.wf(self.sb.blocksize),
        ensures
            match r {
                Ok(fl) => dir_flaws(
                    self.vol(),
                    t@,
                    self.sb.uuid@,
                    mapping::mp_of(*inode),
                ) == Ok::<Seq<DirFlaw>, FsError>(fl@),
                Err(e) => dir_flaws(
                    self.vol(),
                    t@,
                    self.sb.uuid@,
                    mapping::mp_of(*inode),
                ) == Err::<Seq<DirFlaw>, FsError>(e),
            },
    {
        let mut out: Vec<DirFlaw> = Vec::new();
        if inode.format != FMT_EXTENT && inode.format != FMT_TREE {
            assert(out@ =~= Seq::empty());
            return Ok(out);
        }
        let h = self.dhdr_read(t, inode)?;
        let ghost hh = h@;
        let ghost v = self.vol();
        let ghost m = mapping::mp_of(*inode);
        let mut i: usize = 0;
        assert(out@ =~= table_flaws(hh, 0));
        while i < h.table.len()
            invariant
                i <= h.table@.len(),
                hh == h@,
                out@ == table_flaws(hh, i as int),
            decreases h.table@.len() - i,
        {
            let b = h.table[i];
            let ghost before = out@;
            if b >= h.nbuckets {
                out.push(DirFlaw::SlotRange { slot: i as u64, bucket: b });
            }
            if holds(&h.freelist, b) {
                out.push(DirFlaw::SlotFreed { slot: i as u64, bucket: b });
            }
            assert(out@ =~= before + slot_flaws(hh, i as int));
            i = i + 1;
        }
        let ghost part1 = out@;
        let mut k: usize = 0;
        assert(out@ =~= part1 + free_flaws(hh, 0));
        while k < h.freelist.len()
            invariant
                k <= h.freelist@.len(),
                hh == h@,
                out@ == part1 + free_flaws(hh, k as int),
            decreases h.freelist@.len() - k,
        {
            let b = h.freelist[k];
            let ghost before = out@;
            if b >= h.nbuckets {
                out.push(DirFlaw::FreeRange { bucket: b });
            }
            k = k + 1;
            assert(out@ =~= part1 + free_flaws(hh, k as int));
        }
        let ghost part2 = out@;
        let mut b: u32 = 0;
        assert(out@ =~= part2 + buckets_flaws(v, t@, self.sb.uuid@, m, hh, 0));
        while b < h.nbuckets
            invariant
                b <= h.nbuckets,
                hh == h@,
                self.wf(),
                self.sb.blocksize >= 2048,
                t.wf(self.sb.blocksize),
                v == self.vol(),
                m == mapping::mp_of(*inode),
                h.depth <= 31,
                h.table@.len() == record::two_to(h.depth as int),
                out@ == part2 + buckets_flaws(v, t@, self.sb.uuid@, m, hh, b as int),
            decreases h.nbuckets - b,
        {
            if !holds(&h.freelist, b) {
                let ghost before = out@;
                self.check_bucket(t, inode, &h, b, &mut out);
                assert(out@ =~= part2 + (buckets_flaws(v, t@, self.sb.uuid@, m, hh, b as int)
                    + bucket_flaws(v, t@, self.sb.uuid@, m, hh, b)));
            }
            b = b + 1;
        }
        Ok(out)
    }

    fn check_bucket(&self, t: &Txn, inode: &Inode, h: &DirHeader, b: u32, out: &mut Vec<DirFlaw>)
        requires
            self.wf(),
            self.sb.blocksize >= 2048,
            t.wf(self.sb.blocksize),
            h.depth <= 31,
            h.table@.len() == record::two_to(h.depth as int),
        ensures
            final(out)@ == old(out)@ + bucket_flaws(
                self.vol(),
                t@,
                self.sb.uuid@,
                mapping::mp_of(*inode),
                h@,
                b,
            ),
    {
        let ghost base = out@;
        let ghost uuid = self.sb.uuid@;
        match self.bucket_read(t, inode, b) {
            Err(error) => {
                out.push(DirFlaw::BadBucket { bucket: b, error });
                assert(out@ =~= base + seq![DirFlaw::BadBucket { bucket: b, error }]);
            },
            Ok((_, ld, es)) => {
                let ghost s = bucket::hents(es@);
                if ld > h.depth {
                    out.push(DirFlaw::TooDeep { bucket: b, local: ld });
                }
                let ghost mid = out@;
                let mut k: usize = 0;
                assert(out@ =~= mid + entries_flaws(uuid, h@, b, s, 0));
                while k < es.len()
                    invariant
                        k <= es@.len() == s.len(),
                        s == bucket::hents(es@),
                        uuid == self.sb.uuid@,
                        h.depth <= 31,
                        h.table@.len() == record::two_to(h.depth as int),
                        out@ == mid + entries_flaws(uuid, h@, b, s, k as int),
                    decreases es@.len() - k,
                {
                    assert(s[k as int] == es@[k as int]@);
                    let hash = hash_name(&self.sb.uuid, es[k].name.as_str());
                    if hash != es[k].hash {
                        out.push(DirFlaw::StoredHash { bucket: b, entry: k as u64 });
                    }
                    if h.table[bucket_index(hash, h.depth)] != b {
                        out.push(DirFlaw::WrongBucket { bucket: b, entry: k as u64 });
                    }
                    assert(out@ =~= mid + (entries_flaws(uuid, h@, b, s, k as int) + entry_flaws(
                        uuid,
                        h@,
                        b,
                        s,
                        k as int,
                    )));
                    k = k + 1;
                }
                assert(out@ =~= base + bucket_flaws(
                    self.vol(),
                    t@,
                    uuid,
                    mapping::mp_of(*inode),
                    h@,
                    b,
                ));
            },
        }
    }
}

/// The first `n` table entries of a header block.
fn read_u32s(b: &Vec<u8>, n: usize) -> (r: Vec<u32>)
    requires
        24 + 4 * n <= b@.len(),
    ensures
        r@ == Seq::new(n as nat, |i: int| fmt::u32_at(b@, DH_HDR + 4 * i)),
{
    let mut out: Vec<u32> = Vec::new();
    let mut i: usize = 0;
    assert(b.len() == b@.len());
    while i < n
        invariant
            i <= n,
            b.len() == b@.len(),
            24 + 4 * n <= b@.len(),
            out@ == Seq::new(i as nat, |k: int| fmt::u32_at(b@, DH_HDR + 4 * k)),
        decreases n - i,
    {
        out.push(get_u32(b, DH_HDR + 4 * i));
        i = i + 1;
        assert(out@ =~= Seq::new(i as nat, |k: int| fmt::u32_at(b@, DH_HDR + 4 * k)));
    }
    out
}

/// The first `n` freelist entries of a header block, from its end.
fn read_back(b: &Vec<u8>, n: usize) -> (r: Vec<u32>)
    requires
        4 * n <= b@.len(),
        n <= 65535,
    ensures
        r@ == Seq::new(n as nat, |k: int| fmt::u32_at(b@, b@.len() - 4 * (k + 1))),
{
    let mut out: Vec<u32> = Vec::new();
    let mut i: usize = 0;
    let len = b.len();
    while i < n
        invariant
            i <= n <= 65535,
            len == b@.len(),
            4 * n <= len,
            out@ == Seq::new(i as nat, |k: int| fmt::u32_at(b@, b@.len() - 4 * (k + 1))),
        decreases n - i,
    {
        out.push(get_u32(b, len - 4 * (i + 1)));
        i = i + 1;
        assert(out@ =~= Seq::new(i as nat, |k: int| fmt::u32_at(b@, b@.len() - 4 * (k + 1))));
    }
    out
}

fn reversed(s: &Vec<u32>) -> (r: Vec<u32>)
    ensures
        r@ == s@.reverse(),
{
    let mut out: Vec<u32> = Vec::new();
    let mut i: usize = s.len();
    while i > 0
        invariant
            i <= s@.len(),
            out@.len() == s@.len() - i,
            forall|k: int| 0 <= k < out@.len() ==> out@[k] == s@[s@.len() - 1 - k],
        decreases i,
    {
        i = i - 1;
        out.push(s[i]);
    }
    assert(out@ =~= s@.reverse());
    out
}

} // verus!
