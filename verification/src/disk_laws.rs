//! Where everything stands on disk: each field of the fixed structures as the
//! big-endian number at its byte offset, and what makes such bytes valid.

use vstd::prelude::*;

use crate::agmap;
use crate::agmap::Group;
use crate::fmt;
use crate::fmt::FmtError;
use crate::header;
use crate::header::AgHeader;
use crate::inode;
use crate::inode::{Inode, Ts};
use crate::mkfs;
use crate::mkfs_asked;
use crate::superblock;
use crate::superblock::Superblock;

verus! {

// --- numbers ------------------------------------------------------------------

/// The number that the `n` bytes at `o` write, the highest byte first.
pub open spec fn be(b: Seq<u8>, o: int, n: int) -> int
    decreases n,
{
    if n <= 0 {
        0
    } else {
        be(b, o, n - 1) * 256 + b[o + n - 1]
    }
}

pub proof fn lemma_be(b: Seq<u8>, o: int)
    ensures
        fmt::u16_at(b, o) == be(b, o, 2),
        fmt::u32_at(b, o) == be(b, o, 4),
        fmt::u64_at(b, o) == be(b, o, 8),
{
    reveal_with_fuel(be, 9);
}

/// A part of the bytes holds the same numbers.
proof fn lemma_be_part(b: Seq<u8>, c: Seq<u8>, o: int, n: int)
    requires
        0 <= o,
        o + n <= c.len() <= b.len(),
        c == b.take(c.len() as int),
    ensures
        be(b, o, n) == be(c, o, n),
    decreases n,
{
    if n > 0 {
        lemma_be_part(b, c, o, n - 1);
        assert(c[o + n - 1] == b[o + n - 1]);
    }
}

/// The checksum of a structure of `n` bytes: that of its bytes with the four
/// from byte 4 on taken as zero.
pub open spec fn checksum(b: Seq<u8>, n: int) -> u32 {
    fmt::crc32c_of(b.take(4) + seq![0u8, 0u8, 0u8, 0u8] + b.subrange(8, n))
}

pub proof fn lemma_checksum(b: Seq<u8>, n: int)
    requires
        8 <= n <= b.len(),
    ensures
        fmt::csum_of(b.take(n), 4) == checksum(b, n),
{
    assert(fmt::splice(b.take(n), 4, fmt::zeros(4)) =~= b.take(4) + seq![0u8, 0u8, 0u8, 0u8]
        + b.subrange(8, n));
}

// --- the superblock -----------------------------------------------------------

/// Whether 512 bytes are a valid superblock: they start with `5FSB`, the
/// checksum is right, the version is 2, and the block size is a power of two of
/// 512 or more.
pub open spec fn super_valid(b: Seq<u8>) -> bool {
    &&& b.len() >= 512
    &&& b[0] == 0x35 && b[1] == 0x46 && b[2] == 0x53 && b[3] == 0x42
    &&& be(b, 4, 4) == checksum(b, 512)
    &&& be(b, 8, 4) == 2
    &&& superblock::is_pow2(be(b, 36, 4))
    &&& be(b, 36, 4) >= 512
}

/// The fields of a superblock, from its bytes.
pub open spec fn super_reads(b: Seq<u8>, sb: Superblock) -> bool {
    &&& sb.compat == be(b, 12, 8)
    &&& sb.ro_compat == be(b, 20, 8)
    &&& sb.incompat == be(b, 28, 8)
    &&& sb.blocksize == be(b, 36, 4)
    &&& sb.inodesize == be(b, 40, 2)
    &&& sb.uuid@ == b.subrange(42, 58)
    &&& forall|i: int| 0 <= i < 16 ==> #[trigger] sb.disk_name@[i] == be(b, 58 + 2 * i, 2)
    &&& sb.root_ino == be(b, 90, 8)
    &&& sb.next_ag == be(b, 98, 4)
    &&& sb.agmap_offset == be(b, 102, 8)
    &&& sb.agmap_length == be(b, 110, 8)
    &&& sb.journal_start == be(b, 118, 8)
    &&& sb.journal_length == be(b, 126, 8)
    &&& sb.kernel_offset == be(b, 134, 8)
    &&& sb.kernel_end == be(b, 142, 8)
    &&& sb.free_blocks == be(b, 150, 8)
    &&& sb.rsvd_blocks == be(b, 158, 8)
    &&& sb.full_blocks == be(b, 166, 8)
    &&& sb.gen == be(b, 174, 8)
    &&& sb.journal_seq == be(b, 182, 8)
    &&& sb.journal_head == be(b, 190, 8)
}

spec fn bytes_to(s: Seq<u8>, n: int) -> [u8; 16]
    decreases n,
{
    if n <= 0 {
        arbitrary()
    } else {
        vstd::array::spec_array_update(bytes_to(s, n - 1), n - 1, s[n - 1])
    }
}

proof fn lemma_bytes_to(s: Seq<u8>, n: int)
    requires
        0 <= n <= 16,
        s.len() == 16,
    ensures
        forall|i: int| 0 <= i < n ==> bytes_to(s, n)@[i] == s[i],
    decreases n,
{
    if n > 0 {
        lemma_bytes_to(s, n - 1);
    }
}

/// There is a superblock for any bytes.
#[verifier::rlimit(40)]
#[verifier::spinoff_prover]
proof fn lemma_super_exists(b: Seq<u8>)
    requires
        b.len() == 512,
    ensures
        superblock::sb_fields(b, choose|sb: Superblock| superblock::sb_fields(b, sb)),
{
    reveal(superblock::sb_fields);
    let us = Seq::new(16, |i: int| fmt::u16_at(b, 58 + 2 * i));
    mkfs_asked::lemma_disk_name(us);
    let id = b.subrange(42, 58);
    lemma_bytes_to(id, 16);
    assert(bytes_to(id, 16)@ =~= id);
    let sb = Superblock {
        compat: fmt::u64_at(b, 12),
        ro_compat: fmt::u64_at(b, 20),
        incompat: fmt::u64_at(b, 28),
        blocksize: fmt::u32_at(b, 36),
        inodesize: fmt::u16_at(b, 40),
        uuid: bytes_to(id, 16),
        disk_name: mkfs::disk_name(us),
        root_ino: fmt::u64_at(b, 90),
        next_ag: fmt::u32_at(b, 98),
        agmap_offset: fmt::u64_at(b, 102),
        agmap_length: fmt::u64_at(b, 110),
        journal_start: fmt::u64_at(b, 118),
        journal_length: fmt::u64_at(b, 126),
        kernel_offset: fmt::u64_at(b, 134),
        kernel_end: fmt::u64_at(b, 142),
        free_blocks: fmt::u64_at(b, 150),
        rsvd_blocks: fmt::u64_at(b, 158),
        full_blocks: fmt::u64_at(b, 166),
        gen: fmt::u64_at(b, 174),
        journal_seq: fmt::u64_at(b, 182),
        journal_head: fmt::u64_at(b, 190),
    };
    assert(superblock::sb_fields(b, sb));
}

/// Bytes are read as a superblock exactly if they are valid, and every field is
/// the number at its place.
#[verifier::rlimit(40)]
#[verifier::spinoff_prover]
pub proof fn law_superblock_layout(b: Seq<u8>)
    ensures
        superblock::sb_parse(b) is Ok <==> super_valid(b),
        superblock::sb_parse(b) matches Ok(sb) ==> super_reads(b, sb),
        superblock::sb_parse(b) matches Err(e) ==> e == if b.len() < 512 {
            FmtError::ShortRead
        } else if !(b[0] == 0x35 && b[1] == 0x46 && b[2] == 0x53 && b[3] == 0x42) {
            FmtError::BadMagic
        } else if be(b, 4, 4) != checksum(b, 512) {
            FmtError::BadChecksum
        } else if be(b, 8, 4) != 2 {
            FmtError::BadVersion(be(b, 8, 4) as u32)
        } else {
            FmtError::BadBlocksize
        },
{
    if b.len() >= 512 {
        let s = b.take(512);
        lemma_be(s, 4);
        lemma_be(s, 8);
        lemma_be(s, 36);
        lemma_be_part(b, s, 4, 4);
        lemma_be_part(b, s, 8, 4);
        lemma_be_part(b, s, 36, 4);
        lemma_checksum(b, 512);
        lemma_super_exists(s);
        if let Ok(sb) = superblock::sb_parse(b) {
            lemma_super_reads(b, sb);
        }
    }
}

#[verifier::rlimit(40)]
#[verifier::spinoff_prover]
proof fn lemma_super_reads(b: Seq<u8>, sb: Superblock)
    requires
        b.len() >= 512,
        superblock::sb_fields(b.take(512), sb),
    ensures
        super_reads(b, sb),
{
    reveal(superblock::sb_fields);
    let s = b.take(512);
    assert forall|o: int, n: int| 0 <= o && o + n <= 512 implies #[trigger] be(b, o, n) == be(s, o, n)
        by {
        lemma_be_part(b, s, o, n);
    }
    lemma_be(s, 12);
    lemma_be(s, 20);
    lemma_be(s, 28);
    lemma_be(s, 36);
    lemma_be(s, 40);
    lemma_be(s, 90);
    lemma_be(s, 98);
    lemma_be(s, 102);
    lemma_be(s, 110);
    lemma_be(s, 118);
    lemma_be(s, 126);
    lemma_be(s, 134);
    lemma_be(s, 142);
    lemma_be(s, 150);
    lemma_be(s, 158);
    lemma_be(s, 166);
    lemma_be(s, 174);
    lemma_be(s, 182);
    lemma_be(s, 190);
    assert(s.subrange(42, 58) =~= b.subrange(42, 58));
    assert forall|i: int| 0 <= i < 16 implies #[trigger] sb.disk_name@[i] == be(b, 58 + 2 * i, 2) by {
        lemma_be(s, 58 + 2 * i);
    }
}

// --- the header of a group ----------------------------------------------------

/// Whether bytes start with a valid header of a group: 64 of them, that start
/// with `5FSH` and have the right checksum.
pub open spec fn header_valid(b: Seq<u8>) -> bool {
    &&& b.len() >= 64
    &&& b[0] == 0x35 && b[1] == 0x46 && b[2] == 0x53 && b[3] == 0x48
    &&& be(b, 4, 4) == checksum(b, 64)
}

/// The fields of a header, from its bytes.
pub open spec fn header_reads(b: Seq<u8>, h: AgHeader) -> bool {
    &&& h.ag_num == be(b, 8, 4)
    &&& h.gen == be(b, 12, 8)
    &&& h.length == be(b, 20, 4)
    &&& h.free_blocks == be(b, 24, 4)
    &&& h.rsvd_blocks == be(b, 28, 4)
    &&& h.full_blocks == be(b, 32, 4)
    &&& h.alloc_root == be(b, 36, 4)
    &&& h.ino_hint == be(b, 40, 4)
    &&& h.data_hint == be(b, 44, 4)
    &&& h.tbl_arena == be(b, 48, 4)
}

/// Bytes are read as a header exactly if they are valid, and every field is the
/// number at its place.
#[verifier::rlimit(40)]
#[verifier::spinoff_prover]
pub proof fn law_header_layout(b: Seq<u8>)
    ensures
        header::hdr_parse(b) is Ok <==> header_valid(b),
        header::hdr_parse(b) matches Ok(h) ==> header_reads(b, h),
        header::hdr_parse(b) matches Err(e) ==> e == if b.len() < 64 {
            FmtError::ShortRead
        } else if !(b[0] == 0x35 && b[1] == 0x46 && b[2] == 0x53 && b[3] == 0x48) {
            FmtError::BadMagic
        } else {
            FmtError::BadChecksum
        },
{
    if b.len() >= 64 {
        let s = b.take(64);
        reveal(header::hdr_decode);
        assert forall|o: int, n: int|
            0 <= o && o + n <= 64 implies #[trigger] be(b, o, n) == be(s, o, n) by {
            lemma_be_part(b, s, o, n);
        }
        lemma_be(s, 4);
        lemma_be(s, 8);
        lemma_be(s, 12);
        lemma_be(s, 20);
        lemma_be(s, 24);
        lemma_be(s, 28);
        lemma_be(s, 32);
        lemma_be(s, 36);
        lemma_be(s, 40);
        lemma_be(s, 44);
        lemma_be(s, 48);
        lemma_checksum(b, 64);
    }
}

// --- inodes -------------------------------------------------------------------

/// Whether bytes start with a valid inode: 256 of them, that start with `IN`
/// and the version 2, and have the right checksum.
pub open spec fn inode_valid(b: Seq<u8>) -> bool {
    &&& b.len() >= 256
    &&& b[0] == 0x49 && b[1] == 0x4e && b[2] == 2
    &&& be(b, 4, 4) == checksum(b, 256)
}

/// A time, from its bytes: seconds in two's complement, and nanoseconds.
pub open spec fn time_reads(b: Seq<u8>, o: int, t: Ts) -> bool {
    &&& be(b, o, 8) == if t.sec >= 0 {
        t.sec as int
    } else {
        t.sec + 0x1_0000_0000_0000_0000
    }
    &&& t.nsec == be(b, o + 8, 4)
}

/// The fields of an inode, from its bytes.
pub open spec fn inode_reads(b: Seq<u8>, i: Inode) -> bool {
    &&& i.format == b[3]
    &&& i.mode == be(b, 8, 2)
    &&& i.nlink == be(b, 10, 4)
    &&& i.uid == be(b, 14, 4)
    &&& i.gid == be(b, 18, 4)
    &&& i.flags == be(b, 22, 4)
    &&& i.gen == be(b, 26, 4)
    &&& i.size == be(b, 30, 8)
    &&& i.nblocks == be(b, 38, 8)
    &&& time_reads(b, 46, i.atime)
    &&& time_reads(b, 58, i.mtime)
    &&& time_reads(b, 70, i.ctime)
    &&& time_reads(b, 82, i.btime)
    &&& i.xattr == be(b, 94, 8)
    &&& i.payload@ == b.subrange(128, 256)
}

/// There is an inode for any bytes.
proof fn lemma_inode_exists(b: Seq<u8>)
    requires
        b.len() == 256,
    ensures
        inode::inode_fields(b, choose|i: Inode| inode::inode_fields(b, i)),
{
    reveal(inode::inode_fields);
    mkfs::lemma_payload(b.subrange(128, 256));
    let i = Inode {
        format: b[3],
        mode: fmt::u16_at(b, 8),
        nlink: fmt::u32_at(b, 10),
        uid: fmt::u32_at(b, 14),
        gid: fmt::u32_at(b, 18),
        flags: fmt::u32_at(b, 22),
        gen: fmt::u32_at(b, 26),
        size: fmt::u64_at(b, 30),
        nblocks: fmt::u64_at(b, 38),
        atime: inode::ts_at(b, 46),
        mtime: inode::ts_at(b, 58),
        ctime: inode::ts_at(b, 70),
        btime: inode::ts_at(b, 82),
        xattr: fmt::u64_at(b, 94),
        payload: mkfs::payload(b.subrange(128, 256)),
    };
    assert(inode::inode_fields(b, i));
}

proof fn lemma_time(b: Seq<u8>, s: Seq<u8>, o: int)
    requires
        0 <= o,
        o + 12 <= s.len() <= b.len(),
        s == b.take(s.len() as int),
    ensures
        time_reads(b, o, inode::ts_at(s, o)),
{
    lemma_be(s, o);
    lemma_be(s, o + 8);
    lemma_be_part(b, s, o, 8);
    lemma_be_part(b, s, o + 8, 4);
    let u = fmt::u64_at(s, o);
    let t = u as i64;
    assert(u == if t >= 0 {
        t as int
    } else {
        t + 0x1_0000_0000_0000_0000
    }) by (bit_vector)
        requires
            t == u as i64,
    ;
}

/// Bytes are read as an inode exactly if they are valid, and every field is the
/// number at its place.
#[verifier::rlimit(40)]
#[verifier::spinoff_prover]
pub proof fn law_inode_layout(b: Seq<u8>)
    ensures
        inode::inode_parse(b) is Ok <==> inode_valid(b),
        inode::inode_parse(b) matches Ok(i) ==> inode_reads(b, i),
        inode::inode_parse(b) matches Err(e) ==> e == if b.len() < 256 {
            FmtError::ShortRead
        } else if !(b[0] == 0x49 && b[1] == 0x4e) {
            FmtError::BadMagic
        } else if be(b, 4, 4) != checksum(b, 256) {
            FmtError::BadChecksum
        } else {
            FmtError::BadVersion(b[2] as u32)
        },
{
    if b.len() >= 256 {
        let s = b.take(256);
        assert forall|o: int, n: int|
            0 <= o && o + n <= 256 implies #[trigger] be(b, o, n) == be(s, o, n) by {
            lemma_be_part(b, s, o, n);
        }
        lemma_be(s, 4);
        lemma_checksum(b, 256);
        lemma_inode_exists(s);
        reveal(inode::inode_fields);
        lemma_be(s, 8);
        lemma_be(s, 10);
        lemma_be(s, 14);
        lemma_be(s, 18);
        lemma_be(s, 22);
        lemma_be(s, 26);
        lemma_be(s, 30);
        lemma_be(s, 38);
        lemma_be(s, 94);
        lemma_time(b, s, 46);
        lemma_time(b, s, 58);
        lemma_time(b, s, 70);
        lemma_time(b, s, 82);
        assert(s.subrange(128, 256) =~= b.subrange(128, 256));
    }
}

// --- extents ------------------------------------------------------------------

/// The inline mapping of an inode is the records of 20 bytes up to the first
/// one without blocks, six at most.
pub proof fn law_extents_layout(p: Seq<u8>, k: int)
    requires
        p.len() == 128,
        0 <= k < inode::extents_of(p).len(),
    ensures
        inode::extents_of(p).len() <= 6,
        inode::extents_of(p)[k].file_block == be(p, 20 * k, 8),
        inode::extents_of(p)[k].blk == be(p, 20 * k + 8, 8),
        inode::extents_of(p)[k].blocks == be(p, 20 * k + 16, 4),
        inode::extents_of(p)[k].blocks > 0,
{
    lemma_extents_from(p, 0, k);
    lemma_be(p, 20 * k);
    lemma_be(p, 20 * k + 8);
    lemma_be(p, 20 * k + 16);
}

proof fn lemma_extents_from(p: Seq<u8>, i: int, k: int)
    requires
        0 <= i <= 6,
        0 <= k < inode::extents_from(p, i).len(),
    ensures
        inode::extents_from(p, i).len() <= 6 - i,
        inode::extents_from(p, i)[k] == inode::extent_at(p, i + k),
        inode::extents_from(p, i)[k].blocks > 0,
    decreases 6 - i,
{
    lemma_extents_few(p, i);
    if k > 0 {
        assert(inode::extents_from(p, i)[k] == inode::extents_from(p, i + 1)[k - 1]);
        lemma_extents_from(p, i + 1, k - 1);
    }
}

proof fn lemma_extents_few(p: Seq<u8>, i: int)
    requires
        0 <= i <= 6,
    ensures
        inode::extents_from(p, i).len() <= 6 - i,
    decreases 6 - i,
{
    if i < 6 && inode::extent_at(p, i).blocks != 0 {
        lemma_extents_few(p, i + 1);
    }
}

/// All records up to the first one without blocks belong to the mapping.
pub proof fn law_extents_are_all_read(p: Seq<u8>, n: int)
    requires
        p.len() == 128,
        0 <= n <= 6,
        forall|k: int| 0 <= k < n ==> #[trigger] be(p, 20 * k + 16, 4) > 0,
        n < 6 ==> be(p, 20 * n + 16, 4) == 0,
    ensures
        inode::extents_of(p).len() == n,
{
    lemma_all_read(p, 0, n);
}

proof fn lemma_all_read(p: Seq<u8>, i: int, n: int)
    requires
        0 <= i <= n <= 6,
        forall|k: int| 0 <= k < n ==> #[trigger] be(p, 20 * k + 16, 4) > 0,
        n < 6 ==> be(p, 20 * n + 16, 4) == 0,
    ensures
        inode::extents_from(p, i).len() == n - i,
    decreases n - i,
{
    lemma_be(p, 20 * i + 16);
    if i < n {
        assert(be(p, 20 * i + 16, 4) > 0);
        lemma_all_read(p, i + 1, n);
    }
}

// --- the AG map ---------------------------------------------------------------

/// Whether `b` holds a copy of the AG map whose parts stand where they belong: it
/// starts with `5FSM`, says how many bytes are used, and has the right checksum
/// over these.
pub open spec fn map_valid(b: Seq<u8>) -> bool {
    &&& b.len() >= 24
    &&& b[0] == 0x35 && b[1] == 0x46 && b[2] == 0x53 && b[3] == 0x4d
    &&& 24 <= be(b, 20, 4) <= b.len()
    &&& be(b, 4, 4) == checksum(b, be(b, 20, 4))
}

/// The entry at byte `o`: flags, the number of its segments, its length, and
/// the segments of 16 bytes each.
pub open spec fn entry_reads(b: Seq<u8>, o: int, g: Group) -> bool {
    &&& g.flags == be(b, o, 2)
    &&& g.segs.len() == be(b, o + 2, 2)
    &&& g.length == be(b, o + 4, 4)
    &&& forall|j: int|
        0 <= j < g.segs.len() ==> {
            &&& (#[trigger] g.segs[j]).ag_block == be(b, o + 8 + 16 * j, 4)
            &&& g.segs[j].blocks == be(b, o + 8 + 16 * j + 4, 4)
            &&& g.segs[j].dev_offset == be(b, o + 8 + 16 * j + 8, 8)
        }
}

/// Where entry `k` starts: the entries follow one another from byte 24 on.
pub open spec fn entry_at(gs: Seq<Group>, k: int) -> int
    decreases k,
{
    if k <= 0 {
        24
    } else {
        entry_at(gs, k - 1) + 8 + 16 * gs[k - 1].segs.len()
    }
}

/// A copy of the map that is read is valid, and generation, entries and segments
/// are the numbers at their places.
pub proof fn law_map_layout(b: Seq<u8>, k: int)
    requires
        agmap::map_parse(b) is Ok,
    ensures
        ({
            let m = agmap::map_parse(b)->Ok_0;
            &&& map_valid(b)
            &&& m.gen == be(b, 8, 8)
            &&& m.entries.len() == be(b, 16, 4)
            &&& 0 <= k < m.entries.len() ==> entry_reads(b, entry_at(m.entries, k), m.entries[k])
            &&& 0 <= k < m.entries.len() ==> entry_at(m.entries, k) + 8 + 16
                * m.entries[k].segs.len() <= be(b, 20, 4)
        }),
{
    lemma_be(b, 4);
    lemma_be(b, 8);
    lemma_be(b, 16);
    lemma_be(b, 20);
    let used = be(b, 20, 4);
    lemma_checksum(b, used);
    let m = agmap::map_parse(b)->Ok_0;
    let n = be(b, 16, 4);
    lemma_entries_len(b, 24, used, n);
    if 0 <= k < m.entries.len() {
        lemma_entry(b, 24, used, n, k);
        lemma_starts(m.entries, k);
    }
}

/// Bytes that are no valid copy of the map are refused: for their start, for the
/// length they give, or for their checksum.
pub proof fn law_bad_map_is_refused(b: Seq<u8>)
    ensures
        b.len() < 24 || !(b[0] == 0x35 && b[1] == 0x46 && b[2] == 0x53 && b[3] == 0x4d)
            ==> agmap::map_parse(b) == Err::<agmap::Groups, FmtError>(FmtError::BadMagic),
        b.len() >= 24 && b[0] == 0x35 && b[1] == 0x46 && b[2] == 0x53 && b[3] == 0x4d && !(24
            <= be(b, 20, 4) <= b.len()) ==> agmap::map_parse(b) == Err::<agmap::Groups, FmtError>(
            FmtError::BadLength,
        ),
        b.len() >= 24 && b[0] == 0x35 && b[1] == 0x46 && b[2] == 0x53 && b[3] == 0x4d && 24 <= be(
            b,
            20,
            4,
        ) <= b.len() && be(b, 4, 4) != checksum(b, be(b, 20, 4)) ==> agmap::map_parse(b) == Err::<
            agmap::Groups,
            FmtError,
        >(FmtError::BadChecksum),
{
    lemma_be(b, 4);
    lemma_be(b, 20);
    if 24 <= be(b, 20, 4) <= b.len() {
        lemma_checksum(b, be(b, 20, 4));
    }
}

/// Where entry `k` starts, counted from byte `o`.
spec fn start_from(gs: Seq<Group>, o: int, k: int) -> int
    decreases k,
{
    if k <= 0 {
        o
    } else {
        start_from(gs, o, k - 1) + 8 + 16 * gs[k - 1].segs.len()
    }
}

proof fn lemma_starts(gs: Seq<Group>, k: int)
    ensures
        start_from(gs, 24, k) == entry_at(gs, k),
    decreases k,
{
    if k > 0 {
        lemma_starts(gs, k - 1);
    }
}

proof fn lemma_start_skip(g: Group, rest: Seq<Group>, o: int, k: int)
    requires
        0 <= k <= rest.len(),
    ensures
        start_from(seq![g] + rest, o, k + 1) == start_from(rest, o + 8 + 16 * g.segs.len(), k),
    decreases k,
{
    let all = seq![g] + rest;
    if k > 0 {
        lemma_start_skip(g, rest, o, k - 1);
        assert(all[k] == rest[k - 1]);
    } else {
        reveal_with_fuel(start_from, 2);
        assert(all[0] == g);
    }
}

proof fn lemma_entries_len(b: Seq<u8>, o: int, used: int, n: int)
    requires
        n >= 0,
        agmap::groups_at(b, o, used, n) is Ok,
    ensures
        agmap::groups_at(b, o, used, n)->Ok_0.len() == n,
    decreases n,
{
    if n > 0 {
        let nseg = fmt::u16_at(b, o + 2) as int;
        lemma_entries_len(b, o + 8 + 16 * nseg, used, n - 1);
    }
}

proof fn lemma_entry(b: Seq<u8>, o: int, used: int, n: int, k: int)
    requires
        0 <= k < n,
        agmap::groups_at(b, o, used, n) is Ok,
    ensures
        ({
            let gs = agmap::groups_at(b, o, used, n)->Ok_0;
            &&& gs.len() == n
            &&& entry_reads(b, start_from(gs, o, k), gs[k])
            &&& start_from(gs, o, k) + 8 + 16 * gs[k].segs.len() <= used
        }),
    decreases n,
{
    let gs = agmap::groups_at(b, o, used, n)->Ok_0;
    let nseg = fmt::u16_at(b, o + 2) as int;
    let next = o + 8 + 16 * nseg;
    let rest = agmap::groups_at(b, next, used, n - 1)->Ok_0;
    lemma_entries_len(b, o, used, n);
    lemma_entries_len(b, next, used, n - 1);
    let g = gs[0];
    assert(gs == seq![g] + rest);
    assert(g.segs.len() == nseg);
    if k == 0 {
        lemma_be(b, o);
        lemma_be(b, o + 2);
        lemma_be(b, o + 4);
        assert forall|j: int| 0 <= j < g.segs.len() implies {
            &&& (#[trigger] g.segs[j]).ag_block == be(b, o + 8 + 16 * j, 4)
            &&& g.segs[j].blocks == be(b, o + 8 + 16 * j + 4, 4)
            &&& g.segs[j].dev_offset == be(b, o + 8 + 16 * j + 8, 8)
        } by {
            lemma_be(b, o + 8 + 16 * j);
            lemma_be(b, o + 8 + 16 * j + 4);
            lemma_be(b, o + 8 + 16 * j + 8);
        }
    } else {
        lemma_entry(b, next, used, n - 1, k - 1);
        lemma_start_skip(g, rest, o, k - 1);
        assert(gs[k] == rest[k - 1]);
    }
}

/// A block address names a group by its upper half and a block of it by its
/// lower half. It is mapped exactly if the group is present and a segment of it
/// covers the block; the first such segment says where.
#[verifier::rlimit(40)]
#[verifier::spinoff_prover]
pub proof fn law_address_is_resolved(gs: Seq<Group>, addr: u64, bs: u32, ag: int, local: int)
    requires
        addr == ag * 0x1_0000_0000 + local,
        0 <= ag,
        0 <= local < 0x1_0000_0000,
    ensures
        ag >= gs.len() || gs[ag].flags % 2 == 0 || local >= gs[ag].length ==> agmap::resolve_in(
            gs,
            addr,
            bs,
        ) is None,
        ag < gs.len() && (forall|j: int|
            0 <= j < gs[ag].segs.len() ==> !((#[trigger] gs[ag].segs[j]).ag_block <= local
                < gs[ag].segs[j].ag_block + gs[ag].segs[j].blocks)) ==> agmap::resolve_in(
            gs,
            addr,
            bs,
        ) is None,
        forall|j: int|
            ag < gs.len() && gs[ag].flags % 2 == 1 && local < gs[ag].length && 0 <= j
                < gs[ag].segs.len() && (#[trigger] gs[ag].segs[j]).ag_block <= local
                < gs[ag].segs[j].ag_block + gs[ag].segs[j].blocks && (forall|k: int|
                0 <= k < j ==> !((#[trigger] gs[ag].segs[k]).ag_block <= local
                    < gs[ag].segs[k].ag_block + gs[ag].segs[k].blocks))
                && gs[ag].segs[j].dev_offset + (local - gs[ag].segs[j].ag_block) * bs
                <= u64::MAX ==> agmap::resolve_in(gs, addr, bs) == Some(
                (gs[ag].segs[j].dev_offset + (local - gs[ag].segs[j].ag_block) * bs) as u64,
            ),
{
    fmt::law_address_halves(ag as u32, local as u32, 0);
    assert(addr == fmt::addr_of(ag as u32, local as u32));
    if ag < gs.len() {
        let segs = gs[ag].segs;
        if forall|j: int|
            0 <= j < segs.len() ==> !((#[trigger] segs[j]).ag_block <= local < segs[j].ag_block
                + segs[j].blocks) {
            lemma_no_seg(segs, local as u32);
        }
        assert forall|j: int|
            gs[ag].flags % 2 == 1 && local < gs[ag].length && 0 <= j < gs[ag].segs.len() && (
            #[trigger] gs[ag].segs[j]).ag_block <= local < gs[ag].segs[j].ag_block
                + gs[ag].segs[j].blocks && (forall|k: int|
                0 <= k < j ==> !((#[trigger] gs[ag].segs[k]).ag_block <= local
                    < gs[ag].segs[k].ag_block + gs[ag].segs[k].blocks))
                && gs[ag].segs[j].dev_offset + (local - gs[ag].segs[j].ag_block) * bs
                <= u64::MAX implies agmap::resolve_in(gs, addr, bs) == Some(
            (gs[ag].segs[j].dev_offset + (local - gs[ag].segs[j].ag_block) * bs) as u64,
        ) by {
            lemma_first_seg(segs, local as u32, j);
        }
    }
}

proof fn lemma_no_seg(segs: Seq<agmap::AgSegment>, local: u32)
    requires
        forall|j: int|
            0 <= j < segs.len() ==> !((#[trigger] segs[j]).ag_block <= local < segs[j].ag_block
                + segs[j].blocks),
    ensures
        agmap::find_seg(segs, local) is None,
    decreases segs.len(),
{
    if segs.len() > 0 {
        let t = segs.skip(1);
        assert(!agmap::seg_covers(segs[0], local));
        assert forall|j: int| 0 <= j < t.len() implies !((#[trigger] t[j]).ag_block <= local
            < t[j].ag_block + t[j].blocks) by {
            assert(t[j] == segs[j + 1]);
        }
        lemma_no_seg(t, local);
    }
}

proof fn lemma_first_seg(segs: Seq<agmap::AgSegment>, local: u32, j: int)
    requires
        0 <= j < segs.len(),
        segs[j].ag_block <= local < segs[j].ag_block + segs[j].blocks,
        forall|k: int|
            0 <= k < j ==> !((#[trigger] segs[k]).ag_block <= local < segs[k].ag_block
                + segs[k].blocks),
    ensures
        agmap::find_seg(segs, local) == Some(segs[j]),
    decreases segs.len(),
{
    if j > 0 {
        let t = segs.skip(1);
        assert(!agmap::seg_covers(segs[0], local));
        assert forall|k: int| 0 <= k < j - 1 implies !((#[trigger] t[k]).ag_block <= local
            < t[k].ag_block + t[k].blocks) by {
            assert(t[k] == segs[k + 1]);
        }
        assert(t[j - 1] == segs[j]);
        lemma_first_seg(t, local, j - 1);
    }
}

} // verus!
