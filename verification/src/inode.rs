//! Inodes and inline extents.

use crate::fmt::{
    csum_matches, get_i64, get_u16, get_u32, get_u64, put_bytes, put_i64, put_u16, put_u32,
    put_u64, seal, FmtError, EXTENT_REC, FMT_EMPTY, INODE_MAGIC, INODE_PAYLOAD, INODE_SIZE,
    MAX_INLINE_EXTENTS,
};
use std::time::SystemTime;
use vstd::prelude::*;

use crate::fmt;

verus! {

#[derive(Debug, Clone, Copy, PartialEq, Eq, Structural)]
pub struct Ts {
    pub sec: i64,
    pub nsec: u32,
}

impl Default for Ts {
    fn default() -> (r: Self)
        ensures
            r == (Ts { sec: 0, nsec: 0 }),
    {
        Ts { sec: 0, nsec: 0 }
    }
}

#[verifier::external_type_specification]
#[verifier::external_body]
pub struct ExSystemTime(SystemTime);

/// `SystemTime::now` reads the machine's clock; nothing is claimed of the
/// reading.
pub assume_specification[ SystemTime::now ]() -> SystemTime
;

/// `SystemTime::duration_since` the Unix epoch, as whole seconds and the
/// nanoseconds of the second; `None` for a clock before the epoch. Only the
/// range of the nanoseconds is claimed: the reading depends on the machine.
#[verifier::external_body]
fn since_epoch(t: SystemTime) -> (r: Option<(u64, u32)>)
    ensures
        r matches Some(d) ==> d.1 < 1_000_000_000,
{
    match t.duration_since(std::time::UNIX_EPOCH) {
        Ok(d) => Some((d.as_secs(), d.subsec_nanos())),
        Err(_) => None,
    }
}

impl Ts {
    /// The current time.
    pub fn now() -> (r: Self)
        ensures
            r.nsec < 1_000_000_000,
    {
        Ts::from_clock(since_epoch(SystemTime::now()))
    }

    /// The timestamp of a clock reading; a clock before the epoch gives zero.
    pub fn from_clock(reading: Option<(u64, u32)>) -> (r: Self)
        ensures
            r == match reading {
                Some(d) => Ts { sec: d.0 as i64, nsec: d.1 },
                None => Ts { sec: 0, nsec: 0 },
            },
    {
        match reading {
            Some(d) => Ts { sec: d.0 as i64, nsec: d.1 },
            None => Ts { sec: 0, nsec: 0 },
        }
    }
}

#[derive(Debug, Clone, Copy)]
pub struct Inode {
    pub format: u8,
    pub mode: u16,
    pub nlink: u32,
    pub uid: u32,
    pub gid: u32,
    pub flags: u32,
    pub gen: u32,
    pub size: u64,
    pub nblocks: u64,
    pub atime: Ts,
    pub mtime: Ts,
    pub ctime: Ts,
    pub btime: Ts,
    pub xattr: u64,
    pub payload: [u8; 128],
}

impl Default for Inode {
    fn default() -> (r: Self)
        ensures
            r.format == FMT_EMPTY,
            r.mode == 0 && r.nlink == 0 && r.uid == 0 && r.gid == 0 && r.flags == 0,
            r.gen == 0 && r.size == 0 && r.nblocks == 0 && r.xattr == 0,
            r.atime == (Ts { sec: 0, nsec: 0 }),
            r.mtime == r.atime && r.ctime == r.atime && r.btime == r.atime,
            r.payload@ == fmt::zeros(128),
    {
        let t = Ts { sec: 0, nsec: 0 };
        let payload = [0u8; 128];
        assert(payload@ =~= fmt::zeros(128));
        Inode {
            format: FMT_EMPTY,
            mode: 0,
            nlink: 0,
            uid: 0,
            gid: 0,
            flags: 0,
            gen: 0,
            size: 0,
            nblocks: 0,
            atime: t,
            mtime: t,
            ctime: t,
            btime: t,
            xattr: 0,
            payload,
        }
    }
}

pub open spec fn ts_at(b: Seq<u8>, off: int) -> Ts {
    Ts { sec: fmt::i64_at(b, off), nsec: fmt::u32_at(b, off + 8) }
}

fn put_ts(b: &mut [u8], off: usize, t: Ts)
    requires
        off + 12 <= old(b)@.len(),
    ensures
        final(b)@ == fmt::splice(old(b)@, off as int, ts_bytes(t)),
        final(b)@.len() == old(b)@.len(),
        ts_at(final(b)@, off as int) == t,
        forall|i: int|
            0 <= i < old(b)@.len() && !(off <= i < off + 12) ==> #[trigger] final(b)@[i] == old(
                b,
            )@[i],
{
    assert(b.len() == b@.len());
    put_i64(b, off, t.sec);
    let ghost mid = b@;
    put_u32(b, off + 8, t.nsec);
    assert(fmt::u64_at(b@, off as int) == fmt::u64_at(mid, off as int));
    assert(b@ =~= fmt::splice(old(b)@, off as int, ts_bytes(t)));
}

fn get_ts(b: &[u8], off: usize) -> (r: Ts)
    requires
        off + 12 <= b@.len(),
    ensures
        r == ts_at(b@, off as int),
{
    assert(b.len() == b@.len());
    Ts { sec: get_i64(b, off), nsec: get_u32(b, off + 8) }
}

/// The fields of `ino` stand at their places in `b`.
#[verifier::opaque]
pub open spec fn inode_fields(b: Seq<u8>, ino: Inode) -> bool {
    &&& b[3] == ino.format
    &&& fmt::u16_at(b, 8) == ino.mode
    &&& fmt::u32_at(b, 10) == ino.nlink
    &&& fmt::u32_at(b, 14) == ino.uid
    &&& fmt::u32_at(b, 18) == ino.gid
    &&& fmt::u32_at(b, 22) == ino.flags
    &&& fmt::u32_at(b, 26) == ino.gen
    &&& fmt::u64_at(b, 30) == ino.size
    &&& fmt::u64_at(b, 38) == ino.nblocks
    &&& ts_at(b, 46) == ino.atime
    &&& ts_at(b, 58) == ino.mtime
    &&& ts_at(b, 70) == ino.ctime
    &&& ts_at(b, 82) == ino.btime
    &&& fmt::u64_at(b, 94) == ino.xattr
    &&& b.subrange(128, 256) == ino.payload@
}

pub open spec fn ts_bytes(t: Ts) -> Seq<u8> {
    fmt::be64(t.sec as u64) + fmt::be32(t.nsec)
}

/// The encoding of `ino` before its checksum is filled in: each field at its
/// offset, zeros elsewhere.
#[verifier::opaque]
pub open spec fn inode_body(ino: Inode) -> Seq<u8> {
    let b = fmt::splice(fmt::zeros(INODE_SIZE as nat), 0, fmt::be16(INODE_MAGIC));
    let b = b.update(2, 2u8).update(3, ino.format);
    let b = fmt::splice(b, 8, fmt::be16(ino.mode));
    let b = fmt::splice(b, 10, fmt::be32(ino.nlink));
    let b = fmt::splice(b, 14, fmt::be32(ino.uid));
    let b = fmt::splice(b, 18, fmt::be32(ino.gid));
    let b = fmt::splice(b, 22, fmt::be32(ino.flags));
    let b = fmt::splice(b, 26, fmt::be32(ino.gen));
    let b = fmt::splice(b, 30, fmt::be64(ino.size));
    let b = fmt::splice(b, 38, fmt::be64(ino.nblocks));
    let b = fmt::splice(b, 46, ts_bytes(ino.atime));
    let b = fmt::splice(b, 58, ts_bytes(ino.mtime));
    let b = fmt::splice(b, 70, ts_bytes(ino.ctime));
    let b = fmt::splice(b, 82, ts_bytes(ino.btime));
    let b = fmt::splice(b, 94, fmt::be64(ino.xattr));
    fmt::splice(b, 128, ino.payload@)
}

/// The encoding of `ino`.
pub open spec fn inode_bytes(ino: Inode) -> Seq<u8> {
    fmt::sealed(inode_body(ino))
}

/// `b` is the encoding of `ino`: its fields, magic, version and checksum, and
/// zeros where nothing stands.
pub open spec fn inode_image(b: Seq<u8>, ino: Inode) -> bool {
    &&& b.len() == INODE_SIZE
    &&& fmt::u16_at(b, 0) == INODE_MAGIC
    &&& b[2] == 2
    &&& fmt::csum_ok(b)
    &&& inode_fields(b, ino)
    &&& fmt::zero_bytes(b, 102, 128)
}

/// Why `b` does not start with a valid inode; `None` if it does.
pub open spec fn inode_flaw(b: Seq<u8>) -> Option<FmtError> {
    let s = b.take(INODE_SIZE as int);
    if b.len() < INODE_SIZE {
        Some(FmtError::ShortRead)
    } else if fmt::u16_at(s, 0) != INODE_MAGIC {
        Some(FmtError::BadMagic)
    } else if !fmt::csum_ok(s) {
        Some(FmtError::BadChecksum)
    } else if s[2] != 2 {
        Some(FmtError::BadVersion(s[2] as u32))
    } else {
        None
    }
}

/// The inode at the start of `b`, or why there is none.
pub open spec fn inode_parse(b: Seq<u8>) -> Result<Inode, FmtError> {
    match inode_flaw(b) {
        Some(e) => Err(e),
        None => Ok(choose|ino: Inode| inode_fields(b.take(INODE_SIZE as int), ino)),
    }
}

impl Inode {
    #[verifier::rlimit(30)]
    pub fn to_bytes(&self) -> (r: [u8; 256])
        ensures
            r@ == inode_bytes(*self),
            inode_image(r@, *self),
    {
        proof {
            reveal(inode_fields);
            reveal(inode_body);
        }
        let mut b = [0u8; 256];
        assert(b@ =~= fmt::zeros(256));
        put_u16(&mut b, 0, INODE_MAGIC);
        b[2] = 2;
        b[3] = self.format;
        put_u16(&mut b, 8, self.mode);
        put_u32(&mut b, 10, self.nlink);
        put_u32(&mut b, 14, self.uid);
        put_u32(&mut b, 18, self.gid);
        put_u32(&mut b, 22, self.flags);
        put_u32(&mut b, 26, self.gen);
        put_u64(&mut b, 30, self.size);
        put_u64(&mut b, 38, self.nblocks);
        put_ts(&mut b, 46, self.atime);
        put_ts(&mut b, 58, self.mtime);
        put_ts(&mut b, 70, self.ctime);
        put_ts(&mut b, 82, self.btime);
        put_u64(&mut b, 94, self.xattr);
        let ghost before = b@;
        put_bytes(&mut b, 128, &self.payload);
        assert(b@.subrange(128, 256) =~= self.payload@);
        assert(fmt::same_bytes(b@, before, 0, 128));
        let ghost full = b@;
        assert(full == inode_body(*self));
        seal(&mut b);
        assert(b@.subrange(128, 256) =~= full.subrange(128, 256));
        b
    }

    pub fn parse(b: &[u8]) -> (r: Result<Self, FmtError>)
        ensures
            r == inode_parse(b@),
            r matches Ok(ino) ==> inode_fields(b@.take(256), ino),
    {
        proof {
            reveal(inode_fields);
            reveal(inode_body);
        }
        if b.len() < INODE_SIZE {
            return Err(FmtError::ShortRead);
        }
        let b: &[u8] = &b[0..INODE_SIZE];
        if get_u16(b, 0) != INODE_MAGIC {
            return Err(FmtError::BadMagic);
        }
        if !csum_matches(b) {
            return Err(FmtError::BadChecksum);
        }
        if b[2] != 2 {
            return Err(FmtError::BadVersion(b[2] as u32));
        }
        let mut payload = [0u8; 128];
        put_bytes(&mut payload, 0, &b[128..256]);
        assert(payload@ =~= b@.subrange(128, 256));
        let ino = Inode {
            format: b[3],
            mode: get_u16(b, 8),
            nlink: get_u32(b, 10),
            uid: get_u32(b, 14),
            gid: get_u32(b, 18),
            flags: get_u32(b, 22),
            gen: get_u32(b, 26),
            size: get_u64(b, 30),
            nblocks: get_u64(b, 38),
            atime: get_ts(b, 46),
            mtime: get_ts(b, 58),
            ctime: get_ts(b, 70),
            btime: get_ts(b, 82),
            xattr: get_u64(b, 94),
            payload,
        };
        proof {
            let b0 = b@;
            assert(inode_fields(b0, ino));
            law_inode_unique(b0, ino, choose|x: Inode| inode_fields(b0, x));
        }
        Ok(ino)
    }

    /// Whether the type bits of `mode` say directory.
    pub open spec fn spec_is_dir(&self) -> bool {
        self.mode / 0x1000 == 4
    }

    pub fn is_dir(&self) -> (r: bool)
        ensures
            r == self.spec_is_dir(),
    {
        self.mode / 0x1000 == 4
    }

    /// Whether the type bits of `mode` say regular file.
    pub open spec fn spec_is_file(&self) -> bool {
        self.mode / 0x1000 == 8
    }

    pub fn is_file(&self) -> (r: bool)
        ensures
            r == self.spec_is_file(),
    {
        self.mode / 0x1000 == 8
    }
}

/// The bytes of an encoded inode are an image of it.
#[verifier::rlimit(60)]
pub proof fn lemma_inode_image(ino: Inode)
    ensures
        inode_image(inode_bytes(ino), ino),
{
    reveal(inode_fields);
    reveal(inode_body);
    let body = inode_body(ino);
    let b = inode_bytes(ino);
    fmt::lemma_sealed(body);
    assert(b.subrange(0, 2) =~= fmt::be16(INODE_MAGIC));
    fmt::lemma_range_u16(b, 0, INODE_MAGIC);
    assert(body[2] == 2 && body[3] == ino.format);
    assert(b[2] == 2 && b[3] == ino.format);
    assert(b.subrange(8, 10) =~= fmt::be16(ino.mode));
    fmt::lemma_range_u16(b, 8, ino.mode);
    assert(b.subrange(10, 14) =~= fmt::be32(ino.nlink));
    fmt::lemma_range_u32(b, 10, ino.nlink);
    assert(b.subrange(14, 18) =~= fmt::be32(ino.uid));
    fmt::lemma_range_u32(b, 14, ino.uid);
    assert(b.subrange(18, 22) =~= fmt::be32(ino.gid));
    fmt::lemma_range_u32(b, 18, ino.gid);
    assert(b.subrange(22, 26) =~= fmt::be32(ino.flags));
    fmt::lemma_range_u32(b, 22, ino.flags);
    assert(b.subrange(26, 30) =~= fmt::be32(ino.gen));
    fmt::lemma_range_u32(b, 26, ino.gen);
    assert(b.subrange(30, 38) =~= fmt::be64(ino.size));
    fmt::lemma_range_u64(b, 30, ino.size);
    assert(b.subrange(38, 46) =~= fmt::be64(ino.nblocks));
    fmt::lemma_range_u64(b, 38, ino.nblocks);
    assert(b.subrange(46, 58) =~= ts_bytes(ino.atime));
    lemma_range_ts(b, 46, ino.atime);
    assert(b.subrange(58, 70) =~= ts_bytes(ino.mtime));
    lemma_range_ts(b, 58, ino.mtime);
    assert(b.subrange(70, 82) =~= ts_bytes(ino.ctime));
    lemma_range_ts(b, 70, ino.ctime);
    assert(b.subrange(82, 94) =~= ts_bytes(ino.btime));
    lemma_range_ts(b, 82, ino.btime);
    assert(b.subrange(94, 102) =~= fmt::be64(ino.xattr));
    fmt::lemma_range_u64(b, 94, ino.xattr);
    assert(b.subrange(128, 256) =~= ino.payload@);
}

/// A range that holds the bytes of a timestamp reads as that timestamp.
proof fn lemma_range_ts(b: Seq<u8>, o: int, t: Ts)
    requires
        0 <= o,
        o + 12 <= b.len(),
        b.subrange(o, o + 12) == ts_bytes(t),
    ensures
        ts_at(b, o) == t,
{
    let r = b.subrange(o, o + 12);
    assert(b.subrange(o, o + 8) =~= r.subrange(0, 8));
    assert(r.subrange(0, 8) =~= fmt::be64(t.sec as u64));
    fmt::lemma_range_u64(b, o, t.sec as u64);
    assert(b.subrange(o + 8, o + 12) =~= r.subrange(8, 12));
    assert(r.subrange(8, 12) =~= fmt::be32(t.nsec));
    fmt::lemma_range_u32(b, o + 8, t.nsec);
    let s = t.sec;
    assert((s as u64) as i64 == s) by (bit_vector);
}

/// What `to_bytes` writes, `parse` accepts and reads back, also with more
/// bytes behind.
pub proof fn law_inode_round_trip(ino: Inode, rest: Seq<u8>)
    ensures
        inode_bytes(ino).len() == INODE_SIZE,
        inode_parse(inode_bytes(ino) + rest) == Ok::<Inode, FmtError>(ino),
{
    let b = inode_bytes(ino);
    lemma_inode_image(ino);
    assert((b + rest).take(256) =~= b);
    law_inode_unique(b, ino, choose|x: Inode| inode_fields(b, x));
}

/// The bytes pin the fields: two inodes that the same bytes encode are the
/// same.
pub proof fn law_inode_unique(b: Seq<u8>, x: Inode, y: Inode)
    requires
        inode_fields(b, x),
        inode_fields(b, y),
    ensures
        x == y,
{
    reveal(inode_fields);
    reveal(inode_body);
    assert(x.payload =~= y.payload);
}

// --- inline extents -----------------------------------------------------------

/// One inline extent record.
#[derive(Debug, Clone, Copy, PartialEq, Eq, Structural)]
pub struct Extent {
    pub file_block: u64,
    /// Block address.
    pub blk: u64,
    pub blocks: u32,
}

pub open spec fn extent_at(p: Seq<u8>, i: int) -> Extent {
    Extent {
        file_block: fmt::u64_at(p, 20 * i),
        blk: fmt::u64_at(p, 20 * i + 8),
        blocks: fmt::u32_at(p, 20 * i + 16),
    }
}

/// The records from record `i` on: up to the first with no blocks.
pub open spec fn extents_from(p: Seq<u8>, i: int) -> Seq<Extent>
    decreases MAX_INLINE_EXTENTS - i,
{
    if i >= MAX_INLINE_EXTENTS || extent_at(p, i).blocks == 0 {
        Seq::empty()
    } else {
        seq![extent_at(p, i)] + extents_from(p, i + 1)
    }
}

/// The extents of an inline mapping.
pub open spec fn extents_of(p: Seq<u8>) -> Seq<Extent> {
    extents_from(p, 0)
}

pub open spec fn extent_bytes(e: Extent) -> Seq<u8> {
    fmt::be64(e.file_block) + fmt::be64(e.blk) + fmt::be32(e.blocks)
}

pub open spec fn extents_bytes(es: Seq<Extent>) -> Seq<u8>
    decreases es.len(),
{
    if es.len() == 0 {
        Seq::empty()
    } else {
        extents_bytes(es.drop_last()) + extent_bytes(es.last())
    }
}

/// The payload that holds the extents `es` and nothing else.
pub open spec fn extents_image(es: Seq<Extent>) -> Seq<u8> {
    extents_bytes(es) + fmt::zeros((INODE_PAYLOAD - 20 * es.len()) as nat)
}

pub fn extents_parse(payload: &[u8]) -> (r: Vec<Extent>)
    requires
        payload@.len() >= 120,
    ensures
        r@ == extents_of(payload@),
        r@.len() <= MAX_INLINE_EXTENTS,
{
    let mut v: Vec<Extent> = Vec::new();
    let mut i: usize = 0;
    assert(v@ + extents_from(payload@, 0) =~= extents_of(payload@));
    while i < MAX_INLINE_EXTENTS
        invariant
            i <= MAX_INLINE_EXTENTS,
            payload@.len() >= 120,
            v@.len() == i,
            v@ + extents_from(payload@, i as int) == extents_of(payload@),
        decreases MAX_INLINE_EXTENTS - i,
    {
        let off = i * EXTENT_REC;
        let blocks = get_u32(payload, off + 16);
        if blocks == 0 {
            assert(v@ + extents_from(payload@, i as int) =~= v@);
            return v;
        }
        let e = Extent { file_block: get_u64(payload, off), blk: get_u64(payload, off + 8), blocks };
        let ghost before = v@;
        v.push(e);
        proof {
            assert(e == extent_at(payload@, i as int));
            assert(before + (seq![e] + extents_from(payload@, i + 1)) =~= v@ + extents_from(
                payload@,
                i + 1,
            ));
        }
        i = i + 1;
    }
    assert(v@ + extents_from(payload@, i as int) =~= v@);
    v
}

pub fn extents_store(payload: &mut [u8; 128], extents: &[Extent]) -> (r: Result<(), FmtError>)
    ensures
        match r {
            Ok(_) => extents@.len() <= MAX_INLINE_EXTENTS && final(payload)@ == extents_image(
                extents@,
            ),
            Err(e) => e == FmtError::TooManyExtents && extents@.len() > MAX_INLINE_EXTENTS
                && final(payload)@ == old(payload)@,
        },
{
    let n = extents.len();
    if n > MAX_INLINE_EXTENTS {
        return Err(FmtError::TooManyExtents);
    }
    *payload = [0u8; 128];
    let mut i: usize = 0;
    assert(extents@.take(0) =~= Seq::<Extent>::empty());
    assert(payload@ =~= extents_image(extents@.take(0)));
    while i < n
        invariant
            i <= n == extents@.len(),
            n <= MAX_INLINE_EXTENTS,
            extents_bytes(extents@.take(i as int)).len() == 20 * i,
            payload@ == extents_image(extents@.take(i as int)),
        decreases n - i,
    {
        let e = extents[i];
        let off = i * EXTENT_REC;
        put_u64(payload, off, e.file_block);
        put_u64(payload, off + 8, e.blk);
        put_u32(payload, off + 16, e.blocks);
        proof {
            let done = extents@.take(i as int);
            let next = extents@.take(i + 1);
            assert(next.drop_last() =~= done);
            assert(next.last() == e);
            assert(payload@ =~= extents_image(next));
        }
        i = i + 1;
    }
    assert(extents@.take(n as int) =~= extents@);
    Ok(())
}

/// A record of the image of `es` is the extent that was stored there.
proof fn lemma_image_record(es: Seq<Extent>, i: int)
    requires
        0 <= i < es.len() <= MAX_INLINE_EXTENTS,
    ensures
        extents_bytes(es).len() == 20 * es.len(),
        extents_bytes(es).subrange(20 * i, 20 * i + 20) == extent_bytes(es[i]),
    decreases es.len(),
{
    let b = extents_bytes(es);
    let head = extents_bytes(es.drop_last());
    if es.len() > 1 {
        lemma_image_record(es.drop_last(), 0);
    }
    assert(head.len() == 20 * (es.len() - 1));
    if i < es.len() - 1 {
        lemma_image_record(es.drop_last(), i);
        assert(b.subrange(20 * i, 20 * i + 20) =~= head.subrange(20 * i, 20 * i + 20));
    } else {
        assert(b.subrange(20 * i, 20 * i + 20) =~= extent_bytes(es[i]));
    }
}

/// A record of the image of `es` reads back as the extent stored there.
pub proof fn lemma_image_extent(es: Seq<Extent>, i: int)
    requires
        0 <= i < es.len() <= MAX_INLINE_EXTENTS,
    ensures
        extents_image(es).len() == INODE_PAYLOAD,
        extent_at(extents_image(es), i) == es[i],
{
    lemma_image_record(es, i);
    let p = extents_image(es);
    let e = es[i];
    let o = 20 * i;
    let rec = extent_bytes(e);
    assert(p.subrange(o, o + 20) =~= extents_bytes(es).subrange(o, o + 20));
    assert(p.subrange(o, o + 20) == rec);
    assert(p.subrange(o, o + 8) =~= rec.subrange(0, 8));
    assert(rec.subrange(0, 8) =~= fmt::be64(e.file_block));
    assert(p.subrange(o + 8, o + 16) =~= rec.subrange(8, 16));
    assert(rec.subrange(8, 16) =~= fmt::be64(e.blk));
    assert(p.subrange(o + 16, o + 20) =~= rec.subrange(16, 20));
    assert(rec.subrange(16, 20) =~= fmt::be32(e.blocks));
    fmt::lemma_range_u64(p, o, e.file_block);
    fmt::lemma_range_u64(p, o + 8, e.blk);
    fmt::lemma_range_u32(p, o + 16, e.blocks);
}

/// What `extents_store` writes, `extents_parse` reads back, provided that no
/// extent is empty (an empty one ends the list).
pub proof fn law_extents_round_trip(es: Seq<Extent>)
    requires
        es.len() <= MAX_INLINE_EXTENTS,
        forall|i: int| 0 <= i < es.len() ==> (#[trigger] es[i]).blocks > 0,
    ensures
        extents_image(es).len() == INODE_PAYLOAD,
        extents_of(extents_image(es)) == es,
{
    let p = extents_image(es);
    if es.len() > 0 {
        lemma_image_record(es, 0);
    }
    assert(p.len() == 128);
    assert forall|i: int| 0 <= i < es.len() implies extent_at(p, i) == es[i] by {
        lemma_image_extent(es, i);
    }
    lemma_extents_suffix(p, es, es.len() as int);
    assert(es.skip(0) =~= es);
}

/// An inode holds few extents.
pub proof fn lemma_extents_few(p: Seq<u8>, i: int)
    requires
        0 <= i <= MAX_INLINE_EXTENTS,
    ensures
        extents_from(p, i).len() <= MAX_INLINE_EXTENTS - i,
    decreases MAX_INLINE_EXTENTS - i,
{
    if i < MAX_INLINE_EXTENTS {
        lemma_extents_few(p, i + 1);
    }
}

proof fn lemma_extents_suffix(p: Seq<u8>, es: Seq<Extent>, k: int)
    requires
        0 <= k <= es.len() <= MAX_INLINE_EXTENTS,
        p == extents_image(es),
        p.len() == 128,
        extents_bytes(es).len() == 20 * es.len(),
        forall|i: int| 0 <= i < es.len() ==> extent_at(p, i) == es[i],
        forall|i: int| 0 <= i < es.len() ==> (#[trigger] es[i]).blocks > 0,
    ensures
        extents_from(p, es.len() - k) == es.skip(es.len() - k),
    decreases k,
{
    let i = es.len() - k;
    if k == 0 {
        if i < MAX_INLINE_EXTENTS {
            assert(p[20 * i + 16] == 0 && p[20 * i + 17] == 0 && p[20 * i + 18] == 0 && p[20 * i
                + 19] == 0);
        }
        assert(es.skip(i) =~= Seq::<Extent>::empty());
    } else {
        lemma_extents_suffix(p, es, k - 1);
        assert(es.skip(i) =~= seq![es[i]] + es.skip(i + 1));
    }
}

} // verus!
