//! The on-disk format: constants, addresses, big-endian fields, checksums
//! and two-bit state arrays. All integers on disk are big-endian.

pub use crate::agmap::{AgEntry, AgMap, AgSegment};
pub use crate::dirent::{dir_append, dir_parse, DirEntry};
pub use crate::header::{rt_geometry, rt_ref_off, rt_table_blocks, AgHeader};
pub use crate::inode::{extents_parse, extents_store, Extent, Inode, Ts};
pub use crate::superblock::Superblock;
use vstd::prelude::*;


verus! {

pub const VERSION: u32 = 2;

pub const SB_MAGIC: [u8; 4] = [0x35, 0x46, 0x53, 0x42];  // "5FSB"
pub const AG_MAGIC: [u8; 4] = [0x35, 0x46, 0x53, 0x48];  // "5FSH"
pub const AGMAP_MAGIC: [u8; 4] = [0x35, 0x46, 0x53, 0x4d];  // "5FSM"
pub const ALLOC_MAGIC: [u8; 4] = [0x35, 0x46, 0x53, 0x41];  // "5FSA"
pub const TREE_MAGIC: [u8; 4] = [0x35, 0x46, 0x53, 0x54];  // "5FST"
pub const DIRH_MAGIC: [u8; 4] = [0x35, 0x46, 0x53, 0x44];  // "5FSD"
pub const BUCKET_MAGIC: [u8; 4] = [0x35, 0x46, 0x53, 0x62];  // "5FSb"
pub const JDESC_MAGIC: [u8; 4] = [0x35, 0x46, 0x53, 0x4a];  // "5FSJ"
pub const JCOMMIT_MAGIC: [u8; 4] = [0x35, 0x46, 0x53, 0x43];  // "5FSC"
pub const INODE_MAGIC: u16 = 0x494e;  // "IN"

pub const DEFAULT_BLOCKSIZE: u32 = 4096;
pub const DEFAULT_INODESIZE: u16 = 256;
/// Level-0 allocation cell, in blocks (1 MiB at 4 KiB blocks).
pub const CELL_BLOCKS: u32 = 256;
/// Children of a refined allocation cell.
pub const ALLOC_FANOUT: u32 = 16;
/// Children of an extent tree node block.
pub const NODE_FANOUT: u64 = 64;
/// Children of the extent tree root in the inode payload.
pub const ROOT_FANOUT: usize = 6;

pub const SB_SIZE: usize = 512;
pub const AGHDR_SIZE: usize = 64;
pub const INODE_SIZE: usize = 256;
pub const INODE_PAYLOAD: usize = 128;

// Cell states (2 bits).
pub const CELL_FREE: u8 = 0;
pub const CELL_RSVD: u8 = 1;
pub const CELL_FULL: u8 = 2;
pub const CELL_REFINED: u8 = 3;

// Inode payload formats.
pub const FMT_EMPTY: u8 = 1;
pub const FMT_EMBED: u8 = 2;
pub const FMT_EXTENT: u8 = 3;
pub const FMT_TREE: u8 = 4;

/// Per-file flag: contents may not change.
pub const INODE_FLAG_IMMUTABLE: u32 = 1;

// AG map entry flags.
pub const AGF_PRESENT: u16 = 1;
pub const AGF_IMMOVABLE: u16 = 2;
pub const AGF_RETIRED: u16 = 4;

pub const EXTENT_REC: usize = 20;
pub const MAX_INLINE_EXTENTS: usize = 6;

pub const DT_FILE: u8 = 1;
pub const DT_DIR: u8 = 2;

/// What is wrong with an encoded structure, or why one cannot be encoded.
#[derive(Debug, Clone, Copy, PartialEq, Eq, Structural)]
pub enum FmtError {
    ShortRead,
    BadMagic,
    BadChecksum,
    BadVersion(u32),
    BadBlocksize,
    BadLength,
    TruncatedEntry,
    TruncatedSegment,
    CapacityExceeded,
    TooManyExtents,
    NameTooLong,
    DirectoryFull,
}

// --- addresses ----------------------------------------------------------------

/// The group half of a block address or inode number.
pub open spec fn addr_ag(addr: u64) -> u32 {
    (addr / 0x1_0000_0000) as u32
}

/// The block (or slot) half of a block address or inode number.
pub open spec fn addr_local(addr: u64) -> u32 {
    (addr % 0x1_0000_0000) as u32
}

/// The address of block `local` of group `ag`.
pub open spec fn addr_of(ag: u32, local: u32) -> u64 {
    (ag * 0x1_0000_0000 + local) as u64
}

pub fn blk_addr(ag: u32, local: u32) -> (r: u64)
    ensures
        r == addr_of(ag, local),
{
    (ag as u64) * 0x1_0000_0000 + local as u64
}

pub fn blk_split(addr: u64) -> (r: (u32, u32))
    ensures
        r == (addr_ag(addr), addr_local(addr)),
{
    ((addr / 0x1_0000_0000) as u32, (addr % 0x1_0000_0000) as u32)
}

pub fn ino_addr(ag: u32, slot: u32) -> (r: u64)
    ensures
        r == addr_of(ag, slot),
{
    blk_addr(ag, slot)
}

/// Splitting an address and joining the halves are inverse to each other.
pub proof fn law_address_halves(ag: u32, local: u32, addr: u64)
    ensures
        addr_ag(addr_of(ag, local)) == ag,
        addr_local(addr_of(ag, local)) == local,
        addr_of(addr_ag(addr), addr_local(addr)) == addr,
{
}

// --- big-endian fields --------------------------------------------------------

/// `s` with the bytes from `off` on replaced by `t`.
pub open spec fn splice(s: Seq<u8>, off: int, t: Seq<u8>) -> Seq<u8> {
    Seq::new(s.len(), |i: int| if off <= i < off + t.len() { t[i - off] } else { s[i] })
}

pub open spec fn be16(v: u16) -> Seq<u8> {
    seq![(v / 0x100) as u8, (v % 0x100) as u8]
}

pub open spec fn be32(v: u32) -> Seq<u8> {
    seq![
        (v / 0x100_0000) as u8,
        (v / 0x1_0000 % 0x100) as u8,
        (v / 0x100 % 0x100) as u8,
        (v % 0x100) as u8,
    ]
}

pub open spec fn be64(v: u64) -> Seq<u8> {
    be32((v / 0x1_0000_0000) as u32) + be32((v % 0x1_0000_0000) as u32)
}

/// The big-endian 16-bit field at `o`.
pub open spec fn u16_at(s: Seq<u8>, o: int) -> u16 {
    (s[o] * 0x100 + s[o + 1]) as u16
}

/// The big-endian 32-bit field at `o`.
pub open spec fn u32_at(s: Seq<u8>, o: int) -> u32 {
    (s[o] * 0x100_0000 + s[o + 1] * 0x1_0000 + s[o + 2] * 0x100 + s[o + 3]) as u32
}

/// The big-endian 64-bit field at `o`.
pub open spec fn u64_at(s: Seq<u8>, o: int) -> u64 {
    (u32_at(s, o) * 0x1_0000_0000 + u32_at(s, o + 4)) as u64
}

/// The big-endian two's complement 64-bit field at `o`.
pub open spec fn i64_at(s: Seq<u8>, o: int) -> i64 {
    u64_at(s, o) as i64
}

/// Whether bytes `lo..hi` of `s` and `t` agree.
pub open spec fn same_bytes(s: Seq<u8>, t: Seq<u8>, lo: int, hi: int) -> bool {
    forall|i: int| lo <= i < hi ==> #[trigger] s[i] == t[i]
}

/// Whether bytes `lo..hi` of `s` are zero.
pub open spec fn zero_bytes(s: Seq<u8>, lo: int, hi: int) -> bool {
    forall|i: int| lo <= i < hi ==> #[trigger] s[i] == 0
}

/// `n` zero bytes.
pub open spec fn zeros(n: nat) -> Seq<u8> {
    Seq::new(n, |i: int| 0u8)
}

pub fn put_u16(b: &mut [u8], off: usize, v: u16)
    requires
        off + 2 <= old(b)@.len(),
    ensures
        final(b)@ == splice(old(b)@, off as int, be16(v)),
        final(b)@.len() == old(b)@.len(),
        u16_at(final(b)@, off as int) == v,
        forall|i: int|
            0 <= i < old(b)@.len() && !(off <= i < off + 2) ==> #[trigger] final(b)@[i] == old(
                b,
            )@[i],
{
    b[off] = (v / 0x100) as u8;
    b[off + 1] = (v % 0x100) as u8;
    assert(b@ =~= splice(old(b)@, off as int, be16(v)));
}

pub fn put_u32(b: &mut [u8], off: usize, v: u32)
    requires
        off + 4 <= old(b)@.len(),
    ensures
        final(b)@ == splice(old(b)@, off as int, be32(v)),
        final(b)@.len() == old(b)@.len(),
        u32_at(final(b)@, off as int) == v,
        forall|i: int|
            0 <= i < old(b)@.len() && !(off <= i < off + 4) ==> #[trigger] final(b)@[i] == old(
                b,
            )@[i],
{
    b[off] = (v / 0x100_0000) as u8;
    b[off + 1] = (v / 0x1_0000 % 0x100) as u8;
    b[off + 2] = (v / 0x100 % 0x100) as u8;
    b[off + 3] = (v % 0x100) as u8;
    assert(b@ =~= splice(old(b)@, off as int, be32(v)));
}

pub fn put_u64(b: &mut [u8], off: usize, v: u64)
    requires
        off + 8 <= old(b)@.len(),
    ensures
        final(b)@ == splice(old(b)@, off as int, be64(v)),
        final(b)@.len() == old(b)@.len(),
        u64_at(final(b)@, off as int) == v,
        forall|i: int|
            0 <= i < old(b)@.len() && !(off <= i < off + 8) ==> #[trigger] final(b)@[i] == old(
                b,
            )@[i],
{
    assert(b.len() == b@.len());
    put_u32(b, off, (v / 0x1_0000_0000) as u32);
    let ghost mid = b@;
    put_u32(b, off + 4, (v % 0x1_0000_0000) as u32);
    assert(u32_at(b@, off as int) == u32_at(mid, off as int));
    assert(b@ =~= splice(old(b)@, off as int, be64(v)));
}

pub fn put_i64(b: &mut [u8], off: usize, v: i64)
    requires
        off + 8 <= old(b)@.len(),
    ensures
        final(b)@ == splice(old(b)@, off as int, be64(v as u64)),
        final(b)@.len() == old(b)@.len(),
        i64_at(final(b)@, off as int) == v,
        forall|i: int|
            0 <= i < old(b)@.len() && !(off <= i < off + 8) ==> #[trigger] final(b)@[i] == old(
                b,
            )@[i],
{
    put_u64(b, off, v as u64);
    assert((v as u64) as i64 == v) by (bit_vector);
}

pub fn get_u16(b: &[u8], off: usize) -> (r: u16)
    requires
        off + 2 <= b@.len(),
    ensures
        r == u16_at(b@, off as int),
{
    (b[off] as u16) * 0x100 + b[off + 1] as u16
}

pub fn get_u32(b: &[u8], off: usize) -> (r: u32)
    requires
        off + 4 <= b@.len(),
    ensures
        r == u32_at(b@, off as int),
{
    (b[off] as u32) * 0x100_0000 + (b[off + 1] as u32) * 0x1_0000 + (b[off + 2] as u32) * 0x100
        + b[off + 3] as u32
}

pub fn get_u64(b: &[u8], off: usize) -> (r: u64)
    requires
        off + 8 <= b@.len(),
    ensures
        r == u64_at(b@, off as int),
{
    assert(b.len() == b@.len());
    (get_u32(b, off) as u64) * 0x1_0000_0000 + get_u32(b, off + 4) as u64
}

pub fn get_i64(b: &[u8], off: usize) -> (r: i64)
    requires
        off + 8 <= b@.len(),
    ensures
        r == i64_at(b@, off as int),
{
    get_u64(b, off) as i64
}

/// The two halves of a 64-bit value.
pub proof fn lemma_halves(v: u64)
    ensures
        ((v / 0x1_0000_0000) as u32) * 0x1_0000_0000 + ((v % 0x1_0000_0000) as u32) == v,
{
}

/// The bytes of a 16-bit value, put together again.
pub proof fn lemma_u16_of(s: Seq<u8>, o: int, v: u16)
    requires
        s[o] == be16(v)[0],
        s[o + 1] == be16(v)[1],
    ensures
        u16_at(s, o) == v,
{
}

/// The bytes of a 32-bit value, put together again.
pub proof fn lemma_u32_of(s: Seq<u8>, o: int, v: u32)
    requires
        s[o] == be32(v)[0],
        s[o + 1] == be32(v)[1],
        s[o + 2] == be32(v)[2],
        s[o + 3] == be32(v)[3],
    ensures
        u32_at(s, o) == v,
{
}

/// A range that holds the bytes of a value reads as that value.
pub proof fn lemma_range_u16(s: Seq<u8>, o: int, v: u16)
    requires
        0 <= o,
        o + 2 <= s.len(),
        s.subrange(o, o + 2) == be16(v),
    ensures
        u16_at(s, o) == v,
{
    assert(s[o] == s.subrange(o, o + 2)[0]);
    assert(s[o + 1] == s.subrange(o, o + 2)[1]);
    lemma_u16_of(s, o, v);
}

pub proof fn lemma_range_u32(s: Seq<u8>, o: int, v: u32)
    requires
        0 <= o,
        o + 4 <= s.len(),
        s.subrange(o, o + 4) == be32(v),
    ensures
        u32_at(s, o) == v,
{
    assert(s[o] == s.subrange(o, o + 4)[0]);
    assert(s[o + 1] == s.subrange(o, o + 4)[1]);
    assert(s[o + 2] == s.subrange(o, o + 4)[2]);
    assert(s[o + 3] == s.subrange(o, o + 4)[3]);
    lemma_u32_of(s, o, v);
}

pub proof fn lemma_range_u64(s: Seq<u8>, o: int, v: u64)
    requires
        0 <= o,
        o + 8 <= s.len(),
        s.subrange(o, o + 8) == be64(v),
    ensures
        u64_at(s, o) == v,
{
    let hi = (v / 0x1_0000_0000) as u32;
    let lo = (v % 0x1_0000_0000) as u32;
    let t = s.subrange(o, o + 8);
    assert(s.subrange(o, o + 4) =~= be32(hi)) by {
        assert(s.subrange(o, o + 4) =~= t.subrange(0, 4));
        assert(t.subrange(0, 4) =~= be32(hi));
    }
    assert(s.subrange(o + 4, o + 8) =~= be32(lo)) by {
        assert(s.subrange(o + 4, o + 8) =~= t.subrange(4, 8));
        assert(t.subrange(4, 8) =~= be32(lo));
    }
    lemma_range_u32(s, o, hi);
    lemma_range_u32(s, o + 4, lo);
    lemma_halves(v);
}

/// A field written with `put_*` reads back as the value written.
pub proof fn law_fields_read_back(s: Seq<u8>, o: int, a: u16, b: u32, c: u64)
    requires
        0 <= o,
    ensures
        o + 2 <= s.len() ==> u16_at(splice(s, o, be16(a)), o) == a,
        o + 4 <= s.len() ==> u32_at(splice(s, o, be32(b)), o) == b,
        o + 8 <= s.len() ==> u64_at(splice(s, o, be64(c)), o) == c,
{
    if o + 2 <= s.len() {
        lemma_u16_of(splice(s, o, be16(a)), o, a);
    }
    if o + 4 <= s.len() {
        lemma_u32_of(splice(s, o, be32(b)), o, b);
    }
    if o + 8 <= s.len() {
        let t = splice(s, o, be64(c));
        assert(t.subrange(o, o + 8) =~= be64(c));
        lemma_range_u64(t, o, c);
    }
}

// --- magics -------------------------------------------------------------------

/// Whether `s` starts with the magic `m`.
pub open spec fn has_magic(s: Seq<u8>, m: [u8; 4]) -> bool {
    s[0] == m@[0] && s[1] == m@[1] && s[2] == m@[2] && s[3] == m@[3]
}

pub fn magic_is(b: &[u8], m: &[u8; 4]) -> (r: bool)
    requires
        b@.len() >= 4,
    ensures
        r == has_magic(b@, *m),
{
    b[0] == m[0] && b[1] == m[1] && b[2] == m[2] && b[3] == m[3]
}

pub fn put_magic(b: &mut [u8], m: &[u8; 4])
    requires
        old(b)@.len() >= 4,
    ensures
        final(b)@ == splice(old(b)@, 0, m@),
        final(b)@.len() == old(b)@.len(),
        has_magic(final(b)@, *m),
        forall|i: int| 4 <= i < old(b)@.len() ==> #[trigger] final(b)@[i] == old(b)@[i],
{
    b[0] = m[0];
    b[1] = m[1];
    b[2] = m[2];
    b[3] = m[3];
    assert(b@ =~= splice(old(b)@, 0, m@));
}

/// Copy `src` over the bytes from `off` on.
pub fn put_bytes(b: &mut [u8], off: usize, src: &[u8])
    requires
        off + src@.len() <= old(b)@.len(),
    ensures
        final(b)@ == splice(old(b)@, off as int, src@),
{
    let n = src.len();
    let mut i: usize = 0;
    while i < n
        invariant
            i <= n == src@.len(),
            off + n <= b@.len(),
            b@ == splice(old(b)@, off as int, src@.take(i as int)),
            b@.len() == old(b)@.len(),
        decreases n - i,
    {
        assert(b.len() == b@.len());
        b[off + i] = src[i];
        i = i + 1;
        assert(b@ =~= splice(old(b)@, off as int, src@.take(i as int)));
    }
    assert(src@.take(n as int) =~= src@);
}

/// `n` zero bytes.
pub fn zero_vec(n: usize) -> (r: Vec<u8>)
    ensures
        r@ == zeros(n as nat),
{
    let r: Vec<u8> = vec![0u8; n];
    assert(r@ =~= zeros(n as nat));
    r
}

/// Bytes `lo..hi` as a vector of their own.
pub fn sub_vec(b: &[u8], lo: usize, hi: usize) -> (r: Vec<u8>)
    requires
        lo <= hi <= b@.len(),
    ensures
        r@ == b@.subrange(lo as int, hi as int),
{
    vstd::slice::slice_to_vec(&b[lo..hi])
}

// --- checksum -----------------------------------------------------------------

/// What `crc32c::crc32c_append` returns for a running value and a payload.
pub uninterp spec fn crc32c_append_of(crc: u32, data: Seq<u8>) -> u32;

/// CRC32C of a payload: the running value started at zero.
pub open spec fn crc32c_of(data: Seq<u8>) -> u32 {
    crc32c_append_of(0, data)
}

/// `crc32c::crc32c` is `crc32c_append` started at zero.
pub assume_specification[ crc32c::crc32c ](data: &[u8]) -> (r: u32)
    ensures
        r == crc32c_of(data@),
;

/// `crc32c::crc32c_append` depends on its arguments alone, and carrying the
/// value of one payload into the next gives the value of both in a row.
pub assume_specification[ crc32c::crc32c_append ](crc: u32, data: &[u8]) -> (r: u32)
    ensures
        r == crc32c_append_of(crc, data@),
        forall|start: u32, head: Seq<u8>|
            crc == #[trigger] crc32c_append_of(start, head) ==> r == crc32c_append_of(
                start,
                head + data@,
            ),
;

/// CRC32C with the 4-byte checksum field at `o` taken as zero.
pub open spec fn csum_of(s: Seq<u8>, o: int) -> u32 {
    crc32c_of(splice(s, o, zeros(4)))
}

/// CRC32C with the 4-byte checksum field at `csum_off` treated as zero.
pub fn csum(buf: &[u8], csum_off: usize) -> (r: u32)
    requires
        csum_off + 4 <= buf@.len(),
    ensures
        r == csum_of(buf@, csum_off as int),
{
    let head = &buf[0..csum_off];
    let c0 = crc32c::crc32c(head);
    let z: [u8; 4] = [0u8; 4];
    let c1 = crc32c::crc32c_append(c0, &z);
    let n = buf.len();
    let tail = &buf[csum_off + 4..n];
    let c2 = crc32c::crc32c_append(c1, tail);
    assert(head@ + z@ + tail@ =~= splice(buf@, csum_off as int, zeros(4)));
    c2
}

/// Filling in the checksum field does not change the checksum.
pub proof fn lemma_csum_ignores_field(s: Seq<u8>, o: int, t: Seq<u8>)
    requires
        0 <= o,
        o + 4 <= s.len(),
        t.len() == 4,
    ensures
        csum_of(splice(s, o, t), o) == csum_of(s, o),
{
    assert(splice(splice(s, o, t), o, zeros(4)) =~= splice(s, o, zeros(4)));
}

/// The block `s` with its checksum filled in at offset 4.
pub open spec fn sealed(s: Seq<u8>) -> Seq<u8> {
    splice(s, 4, be32(csum_of(s, 4)))
}

/// Whether the checksum at offset 4 is right.
pub open spec fn csum_ok(s: Seq<u8>) -> bool {
    u32_at(s, 4) == csum_of(s, 4)
}

/// Fill in the checksum at offset 4.
pub fn seal(b: &mut [u8])
    requires
        old(b)@.len() >= 8,
    ensures
        final(b)@ == sealed(old(b)@),
        final(b)@.len() == old(b)@.len(),
        csum_ok(final(b)@),
        same_bytes(final(b)@, old(b)@, 0, 4),
        same_bytes(final(b)@, old(b)@, 8, old(b)@.len() as int),
{
    let c = csum(b, 4);
    put_u32(b, 4, c);
    proof {
        lemma_csum_ignores_field(old(b)@, 4, be32(c));
    }
}

/// A sealed block carries the right checksum, and only the field changed.
pub proof fn lemma_sealed(s: Seq<u8>)
    requires
        s.len() >= 8,
    ensures
        sealed(s).len() == s.len(),
        csum_ok(sealed(s)),
        same_bytes(sealed(s), s, 0, 4),
        same_bytes(sealed(s), s, 8, s.len() as int),
{
    lemma_csum_ignores_field(s, 4, be32(csum_of(s, 4)));
    law_fields_read_back(s, 4, 0, csum_of(s, 4), 0);
}

pub fn csum_matches(b: &[u8]) -> (r: bool)
    requires
        b@.len() >= 8,
    ensures
        r == csum_ok(b@),
{
    get_u32(b, 4) == csum(b, 4)
}

// --- 2-bit state arrays -------------------------------------------------------

/// The two-bit field `k` (0 to 3) of a byte, lowest first.
pub open spec fn quarter(b: u8, k: int) -> u8 {
    if k == 0 {
        b % 4
    } else if k == 1 {
        b / 4 % 4
    } else if k == 2 {
        b / 16 % 4
    } else {
        b / 64
    }
}

/// A byte from its four two-bit fields, lowest first.
pub open spec fn byte_of(q0: u8, q1: u8, q2: u8, q3: u8) -> u8 {
    (q0 + q1 * 4 + q2 * 16 + q3 * 64) as u8
}

/// `b` with its two-bit field `k` replaced by `st`.
pub open spec fn with_quarter(b: u8, k: int, st: u8) -> u8 {
    byte_of(
        if k == 0 { st } else { quarter(b, 0) },
        if k == 1 { st } else { quarter(b, 1) },
        if k == 2 { st } else { quarter(b, 2) },
        if k == 3 { st } else { quarter(b, 3) },
    )
}

/// State `i` of the array that starts at byte 0 of `s`.
pub open spec fn cell_at(s: Seq<u8>, i: int) -> u8 {
    quarter(s[i / 4], i % 4)
}

/// `s` with state `i` replaced by `st`.
pub open spec fn cell_put(s: Seq<u8>, i: int, st: u8) -> Seq<u8> {
    s.update(i / 4, with_quarter(s[i / 4], i % 4, st))
}

/// The four fields of a byte put together from four fields.
pub proof fn lemma_byte_of(q0: u8, q1: u8, q2: u8, q3: u8)
    requires
        q0 < 4,
        q1 < 4,
        q2 < 4,
        q3 < 4,
    ensures
        quarter(byte_of(q0, q1, q2, q3), 0) == q0,
        quarter(byte_of(q0, q1, q2, q3), 1) == q1,
        quarter(byte_of(q0, q1, q2, q3), 2) == q2,
        quarter(byte_of(q0, q1, q2, q3), 3) == q3,
{
    let c = byte_of(q0, q1, q2, q3);
    assert(c == q0 + q1 * 4 + q2 * 16 + q3 * 64);
    assert(c % 4 == q0 && c / 4 % 4 == q1 && c / 16 % 4 == q2 && c / 64 == q3) by (bit_vector)
        requires
            c == q0 + q1 * 4 + q2 * 16 + q3 * 64,
            q0 < 4,
            q1 < 4,
            q2 < 4,
            q3 < 4,
    ;
}

/// A state array reads back what was put, and every other state is as it was.
pub proof fn law_cell_put(s: Seq<u8>, i: int, j: int, st: u8)
    requires
        0 <= i / 4 < s.len(),
        0 <= i,
        0 <= j,
        j / 4 < s.len(),
        st < 4,
    ensures
        cell_at(cell_put(s, i, st), j) == if i == j { st } else { cell_at(s, j) },
{
    if i / 4 == j / 4 {
        let b = s[i / 4];
        let k = i % 4;
        let l = j % 4;
        assert(i == j <==> k == l);
        let q0 = if k == 0 { st } else { quarter(b, 0) };
        let q1 = if k == 1 { st } else { quarter(b, 1) };
        let q2 = if k == 2 { st } else { quarter(b, 2) };
        let q3 = if k == 3 { st } else { quarter(b, 3) };
        let c = byte_of(q0, q1, q2, q3);
        lemma_byte_of(q0, q1, q2, q3);
        assert(cell_put(s, i, st)[j / 4] == c);
        assert(quarter(c, l) == if k == l { st } else { quarter(b, l) });
    }
}

pub fn cell_get(buf: &[u8], idx: u64) -> (r: u8)
    requires
        idx / 4 < buf@.len(),
    ensures
        r == cell_at(buf@, idx as int),
        r < 4,
{
    let b = buf[(idx / 4) as usize];
    let k = idx % 4;
    if k == 0 {
        b % 4
    } else if k == 1 {
        b / 4 % 4
    } else if k == 2 {
        b / 16 % 4
    } else {
        b / 64
    }
}

pub fn cell_set(buf: &mut [u8], idx: u64, state: u8)
    requires
        idx / 4 < old(buf)@.len(),
    ensures
        final(buf)@ == cell_put(old(buf)@, idx as int, state % 4),
        final(buf)@.len() == old(buf)@.len(),
{
    let i = (idx / 4) as usize;
    let b = buf[i];
    let k = idx % 4;
    let st = state % 4;
    let q0 = if k == 0 { st } else { b % 4 };
    let q1 = if k == 1 { st } else { b / 4 % 4 };
    let q2 = if k == 2 { st } else { b / 16 % 4 };
    let q3 = if k == 3 { st } else { b / 64 };
    buf[i] = q0 + q1 * 4 + q2 * 16 + q3 * 64;
}

// --- small arithmetic ---------------------------------------------------------

/// Quotient rounded up.
pub open spec fn ceil_div(a: int, b: int) -> int {
    (a + b - 1) / b
}

pub fn div_up(a: u64, b: u64) -> (r: u64)
    requires
        b > 0,
    ensures
        r == ceil_div(a as int, b as int),
        r * b >= a,
        a > 0 ==> (r - 1) * b < a,
        r <= a,
{
    let q = a / b;
    let m = a % b;
    proof {
        lemma_ceil_div(a as int, b as int);
        assert(a == b * q + m) by (nonlinear_arith)
            requires
                q == a / b,
                m == a % b,
                b > 0,
        ;
        if m > 0 {
            assert(q < a) by (nonlinear_arith)
                requires
                    a == b * q + m,
                    m > 0,
                    b > 0,
                    q >= 0,
            ;
        } else {
            assert(q <= a) by (nonlinear_arith)
                requires
                    a == b * q,
                    b > 0,
                    q >= 0,
            ;
        }
    }
    if m == 0 {
        q
    } else {
        q + 1
    }
}

/// `ceil_div` in terms of quotient and remainder.
pub proof fn lemma_ceil_div(a: int, b: int)
    requires
        a >= 0,
        b > 0,
    ensures
        ceil_div(a, b) == if a % b == 0 { a / b } else { a / b + 1 },
        ceil_div(a, b) * b >= a,
        a > 0 ==> (ceil_div(a, b) - 1) * b < a,
        0 <= ceil_div(a, b) <= a,
{
    let q = a / b;
    let m = a % b;
    assert(a == b * q + m && 0 <= m < b) by (nonlinear_arith)
        requires
            q == a / b,
            m == a % b,
            b > 0,
    ;
    let r = if m == 0 { q } else { q + 1 };
    assert((a + b - 1) / b == r) by (nonlinear_arith)
        requires
            a == b * q + m,
            0 <= m < b,
            r == if m == 0 { q } else { q + 1 },
    ;
    assert(r * b >= a && (a > 0 ==> (r - 1) * b < a) && 0 <= r <= a) by (nonlinear_arith)
        requires
            a == b * q + m,
            0 <= m < b,
            a >= 0,
            r == if m == 0 { q } else { q + 1 },
    ;
}


} // verus!
