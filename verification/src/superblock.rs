//! The superblock.

use crate::fmt::{
    csum_matches, get_u16, get_u32, get_u64, magic_is, put_bytes, put_magic, put_u16, put_u32,
    put_u64, seal, FmtError, SB_MAGIC, SB_SIZE, VERSION,
};
use vstd::prelude::*;

use crate::dirent;
use crate::fmt;
use crate::utf16;

verus! {

#[derive(Debug, Clone)]
pub struct Superblock {
    pub compat: u64,
    pub ro_compat: u64,
    pub incompat: u64,
    pub blocksize: u32,
    pub inodesize: u16,
    pub uuid: [u8; 16],
    pub disk_name: [u16; 16],
    pub root_ino: u64,
    pub next_ag: u32,
    /// Physical byte offset of the AG map copies.
    pub agmap_offset: u64,
    /// Bytes per AG map copy.
    pub agmap_length: u64,
    /// Block address of the journal.
    pub journal_start: u64,
    /// Journal length in blocks.
    pub journal_length: u64,
    /// Physical byte offset of the boot kernel, 0 if there is none.
    pub kernel_offset: u64,
    pub kernel_end: u64,
    pub free_blocks: u64,
    pub rsvd_blocks: u64,
    pub full_blocks: u64,
    pub gen: u64,
    /// Sequence number of the next journal transaction.
    pub journal_seq: u64,
    /// Journal block at which the next transaction starts.
    pub journal_head: u64,
}

impl Default for Superblock {
    fn default() -> (r: Self)
        ensures
            r.compat == 0 && r.ro_compat == 0 && r.incompat == 0,
            r.blocksize == 0 && r.inodesize == 0,
            forall|i: int| 0 <= i < 16 ==> r.uuid@[i] == 0,
            forall|i: int| 0 <= i < 16 ==> r.disk_name@[i] == 0,
            r.root_ino == 0 && r.next_ag == 0,
            r.agmap_offset == 0 && r.agmap_length == 0,
            r.journal_start == 0 && r.journal_length == 0,
            r.kernel_offset == 0 && r.kernel_end == 0,
            r.free_blocks == 0 && r.rsvd_blocks == 0 && r.full_blocks == 0,
            r.gen == 0 && r.journal_seq == 0 && r.journal_head == 0,
    {
        Superblock {
            compat: 0,
            ro_compat: 0,
            incompat: 0,
            blocksize: 0,
            inodesize: 0,
            uuid: [0u8; 16],
            disk_name: [0u16; 16],
            root_ino: 0,
            next_ag: 0,
            agmap_offset: 0,
            agmap_length: 0,
            journal_start: 0,
            journal_length: 0,
            kernel_offset: 0,
            kernel_end: 0,
            free_blocks: 0,
            rsvd_blocks: 0,
            full_blocks: 0,
            gen: 0,
            journal_seq: 0,
            journal_head: 0,
        }
    }
}

/// Whether `n` is a power of two.
pub open spec fn is_pow2(n: int) -> bool
    decreases n,
{
    n == 1 || (n > 1 && n % 2 == 0 && is_pow2(n / 2))
}

/// A power of two below twice another is at most that other.
proof fn lemma_pow2_steps(n: int, m: int)
    requires
        is_pow2(n),
        is_pow2(m),
        n < 2 * m,
    ensures
        n <= m,
    decreases n,
{
    if n > 1 && m > 1 {
        lemma_pow2_steps(n / 2, m / 2);
    }
}

/// A 32-bit power of two is at most 2^31.
pub proof fn lemma_blocksize_bound(bs: u32)
    requires
        is_pow2(bs as int),
    ensures
        bs <= 0x8000_0000,
{
    reveal_with_fuel(is_pow2, 33);
    assert(is_pow2(0x8000_0000));
    lemma_pow2_steps(bs as int, 0x8000_0000);
}

/// A power of two below 2^27 is at most 2^26.
pub proof fn lemma_pow2_below(bs: u32)
    requires
        is_pow2(bs as int),
        bs < 0x800_0000,
    ensures
        bs <= 0x400_0000,
{
    reveal_with_fuel(is_pow2, 33);
    assert(is_pow2(0x400_0000));
    lemma_pow2_steps(bs as int, 0x400_0000);
}

pub fn is_power_of_two(n: u32) -> (r: bool)
    ensures
        r == is_pow2(n as int),
{
    let mut m = n;
    while m > 1
        invariant
            is_pow2(n as int) == is_pow2(m as int),
        decreases m,
    {
        if m % 2 != 0 {
            return false;
        }
        m = m / 2;
    }
    m == 1
}

/// The fields of `sb` stand at their places in `b`.
#[verifier::opaque]
pub open spec fn sb_fields(b: Seq<u8>, sb: Superblock) -> bool {
    &&& fmt::u64_at(b, 12) == sb.compat
    &&& fmt::u64_at(b, 20) == sb.ro_compat
    &&& fmt::u64_at(b, 28) == sb.incompat
    &&& fmt::u32_at(b, 36) == sb.blocksize
    &&& fmt::u16_at(b, 40) == sb.inodesize
    &&& b.subrange(42, 58) == sb.uuid@
    &&& forall|i: int| 0 <= i < 16 ==> fmt::u16_at(b, 58 + 2 * i) == #[trigger] sb.disk_name@[i]
    &&& fmt::u64_at(b, 90) == sb.root_ino
    &&& fmt::u32_at(b, 98) == sb.next_ag
    &&& fmt::u64_at(b, 102) == sb.agmap_offset
    &&& fmt::u64_at(b, 110) == sb.agmap_length
    &&& fmt::u64_at(b, 118) == sb.journal_start
    &&& fmt::u64_at(b, 126) == sb.journal_length
    &&& fmt::u64_at(b, 134) == sb.kernel_offset
    &&& fmt::u64_at(b, 142) == sb.kernel_end
    &&& fmt::u64_at(b, 150) == sb.free_blocks
    &&& fmt::u64_at(b, 158) == sb.rsvd_blocks
    &&& fmt::u64_at(b, 166) == sb.full_blocks
    &&& fmt::u64_at(b, 174) == sb.gen
    &&& fmt::u64_at(b, 182) == sb.journal_seq
    &&& fmt::u64_at(b, 190) == sb.journal_head
}

/// The encoding of `sb` before its checksum is filled in: each field at its
/// offset, zeros elsewhere.
#[verifier::opaque]
pub open spec fn sb_body(sb: Superblock) -> Seq<u8> {
    let b = fmt::splice(fmt::zeros(SB_SIZE as nat), 0, SB_MAGIC@);
    let b = fmt::splice(b, 8, fmt::be32(VERSION));
    let b = fmt::splice(b, 12, fmt::be64(sb.compat));
    let b = fmt::splice(b, 20, fmt::be64(sb.ro_compat));
    let b = fmt::splice(b, 28, fmt::be64(sb.incompat));
    let b = fmt::splice(b, 36, fmt::be32(sb.blocksize));
    let b = fmt::splice(b, 40, fmt::be16(sb.inodesize));
    let b = fmt::splice(b, 42, sb.uuid@);
    let b = fmt::splice(b, 58, dirent::units_bytes(sb.disk_name@));
    let b = fmt::splice(b, 90, fmt::be64(sb.root_ino));
    let b = fmt::splice(b, 98, fmt::be32(sb.next_ag));
    let b = fmt::splice(b, 102, fmt::be64(sb.agmap_offset));
    let b = fmt::splice(b, 110, fmt::be64(sb.agmap_length));
    let b = fmt::splice(b, 118, fmt::be64(sb.journal_start));
    let b = fmt::splice(b, 126, fmt::be64(sb.journal_length));
    let b = fmt::splice(b, 134, fmt::be64(sb.kernel_offset));
    let b = fmt::splice(b, 142, fmt::be64(sb.kernel_end));
    let b = fmt::splice(b, 150, fmt::be64(sb.free_blocks));
    let b = fmt::splice(b, 158, fmt::be64(sb.rsvd_blocks));
    let b = fmt::splice(b, 166, fmt::be64(sb.full_blocks));
    let b = fmt::splice(b, 174, fmt::be64(sb.gen));
    let b = fmt::splice(b, 182, fmt::be64(sb.journal_seq));
    fmt::splice(b, 190, fmt::be64(sb.journal_head))
}

/// The encoding of `sb`.
pub open spec fn sb_bytes(sb: Superblock) -> Seq<u8> {
    fmt::sealed(sb_body(sb))
}

/// `b` is the encoding of `sb`: its fields, the magic, the version, the
/// checksum, and zeros to the end.
pub open spec fn sb_image(b: Seq<u8>, sb: Superblock) -> bool {
    &&& b.len() == SB_SIZE
    &&& fmt::has_magic(b, SB_MAGIC)
    &&& fmt::csum_ok(b)
    &&& fmt::u32_at(b, 8) == VERSION
    &&& sb_fields(b, sb)
    &&& fmt::zero_bytes(b, 198, SB_SIZE as int)
}

/// Why `b` does not start with a valid superblock; `None` if it does.
pub open spec fn sb_flaw(b: Seq<u8>) -> Option<FmtError> {
    let s = b.take(SB_SIZE as int);
    if b.len() < SB_SIZE {
        Some(FmtError::ShortRead)
    } else if !fmt::has_magic(s, SB_MAGIC) {
        Some(FmtError::BadMagic)
    } else if !fmt::csum_ok(s) {
        Some(FmtError::BadChecksum)
    } else if fmt::u32_at(s, 8) != VERSION {
        Some(FmtError::BadVersion(fmt::u32_at(s, 8)))
    } else if !is_pow2(fmt::u32_at(s, 36) as int) || fmt::u32_at(s, 36) < 512 {
        Some(FmtError::BadBlocksize)
    } else {
        None
    }
}

/// How many code units a NUL-padded name has.
pub open spec fn name_len(u: Seq<u16>) -> nat
    decreases u.len(),
{
    if u.len() == 0 || u[0] == 0 {
        0
    } else {
        1 + name_len(u.skip(1))
    }
}

/// The superblock at the start of `b`, or why there is none.
pub open spec fn sb_parse(b: Seq<u8>) -> Result<Superblock, FmtError> {
    match sb_flaw(b) {
        Some(e) => Err(e),
        None => Ok(choose|sb: Superblock| sb_fields(b.take(SB_SIZE as int), sb)),
    }
}

impl Superblock {
    #[verifier::rlimit(50)]
    pub fn to_bytes(&self) -> (r: [u8; 512])
        ensures
            r@ == sb_bytes(*self),
            sb_image(r@, *self),
    {
        proof {
            reveal(sb_fields);
            reveal(sb_body);
        }
        let mut b = [0u8; 512];
        assert(b@ =~= fmt::zeros(512));
        put_magic(&mut b, &SB_MAGIC);
        put_u32(&mut b, 8, VERSION);
        put_u64(&mut b, 12, self.compat);
        put_u64(&mut b, 20, self.ro_compat);
        put_u64(&mut b, 28, self.incompat);
        put_u32(&mut b, 36, self.blocksize);
        put_u16(&mut b, 40, self.inodesize);
        put_bytes(&mut b, 42, &self.uuid);
        assert(b@.subrange(42, 58) =~= self.uuid@);
        let ghost b0 = b@;
        let mut i: usize = 0;
        while i < 16
            invariant
                i <= 16,
                b@.len() == 512,
                forall|j: int|
                    0 <= j < 2 * i ==> b@[58 + j] == #[trigger] dirent::units_bytes(
                        self.disk_name@,
                    )[j],
                forall|j: int|
                    0 <= j < i ==> fmt::u16_at(b@, 58 + 2 * j) == #[trigger] self.disk_name@[j],
                fmt::same_bytes(b@, b0, 0, 58),
                fmt::same_bytes(b@, b0, 90, 512),
            decreases 16 - i,
        {
            let ghost before = b@;
            put_u16(&mut b, 58 + i * 2, self.disk_name[i]);
            assert forall|j: int| 0 <= j < i + 1 implies fmt::u16_at(b@, 58 + 2 * j)
                == #[trigger] self.disk_name@[j] by {
                if j < i {
                    assert(fmt::u16_at(before, 58 + 2 * j) == self.disk_name@[j]);
                }
            }
            i = i + 1;
        }
        assert(b@.subrange(42, 58) =~= b0.subrange(42, 58));
        let ghost b1 = b@;
        assert(b1 =~= fmt::splice(b0, 58, dirent::units_bytes(self.disk_name@)));
        put_u64(&mut b, 90, self.root_ino);
        put_u32(&mut b, 98, self.next_ag);
        put_u64(&mut b, 102, self.agmap_offset);
        put_u64(&mut b, 110, self.agmap_length);
        put_u64(&mut b, 118, self.journal_start);
        put_u64(&mut b, 126, self.journal_length);
        put_u64(&mut b, 134, self.kernel_offset);
        put_u64(&mut b, 142, self.kernel_end);
        put_u64(&mut b, 150, self.free_blocks);
        put_u64(&mut b, 158, self.rsvd_blocks);
        put_u64(&mut b, 166, self.full_blocks);
        put_u64(&mut b, 174, self.gen);
        put_u64(&mut b, 182, self.journal_seq);
        put_u64(&mut b, 190, self.journal_head);
        let ghost b2 = b@;
        assert(fmt::same_bytes(b2, b1, 0, 90));
        assert(b2 == sb_body(*self));
        seal(&mut b);
        assert(b@.subrange(42, 58) =~= b1.subrange(42, 58));
        assert forall|j: int| 0 <= j < 16 implies fmt::u16_at(b@, 58 + 2 * j)
            == #[trigger] self.disk_name@[j] by {
            assert(fmt::u16_at(b1, 58 + 2 * j) == self.disk_name@[j]);
        }
        b
    }

    pub fn parse(b: &[u8]) -> (r: Result<Self, FmtError>)
        ensures
            r == sb_parse(b@),
            r matches Ok(sb) ==> sb_fields(b@.take(512), sb) && is_pow2(sb.blocksize as int)
                && sb.blocksize >= 512,
    {
        proof {
            reveal(sb_fields);
            reveal(sb_body);
        }
        if b.len() < SB_SIZE {
            return Err(FmtError::ShortRead);
        }
        let b: &[u8] = &b[0..SB_SIZE];
        if !magic_is(b, &SB_MAGIC) {
            return Err(FmtError::BadMagic);
        }
        if !csum_matches(b) {
            return Err(FmtError::BadChecksum);
        }
        let ver = get_u32(b, 8);
        if ver != VERSION {
            return Err(FmtError::BadVersion(ver));
        }
        let blocksize = get_u32(b, 36);
        if !is_power_of_two(blocksize) || blocksize < 512 {
            return Err(FmtError::BadBlocksize);
        }
        let mut uuid = [0u8; 16];
        put_bytes(&mut uuid, 0, &b[42..58]);
        assert(uuid@ =~= b@.subrange(42, 58));
        let mut disk_name = [0u16; 16];
        let mut i: usize = 0;
        while i < 16
            invariant
                i <= 16,
                b@.len() == 512,
                forall|j: int|
                    0 <= j < i ==> fmt::u16_at(b@, 58 + 2 * j) == #[trigger] disk_name@[j],
            decreases 16 - i,
        {
            disk_name[i] = get_u16(b, 58 + i * 2);
            i = i + 1;
        }
        let sb = Superblock {
            compat: get_u64(b, 12),
            ro_compat: get_u64(b, 20),
            incompat: get_u64(b, 28),
            blocksize,
            inodesize: get_u16(b, 40),
            uuid,
            disk_name,
            root_ino: get_u64(b, 90),
            next_ag: get_u32(b, 98),
            agmap_offset: get_u64(b, 102),
            agmap_length: get_u64(b, 110),
            journal_start: get_u64(b, 118),
            journal_length: get_u64(b, 126),
            kernel_offset: get_u64(b, 134),
            kernel_end: get_u64(b, 142),
            free_blocks: get_u64(b, 150),
            rsvd_blocks: get_u64(b, 158),
            full_blocks: get_u64(b, 166),
            gen: get_u64(b, 174),
            journal_seq: get_u64(b, 182),
            journal_head: get_u64(b, 190),
        };
        proof {
            let b0 = b@;
            assert(sb_fields(b0, sb));
            law_superblock_unique(b0, sb, choose|x: Superblock| sb_fields(b0, x));
        }
        Ok(sb)
    }

    /// The volume label.
    pub fn label(&self) -> (r: String)
        ensures
            r@ == utf16::decode_utf16(
                self.disk_name@.take(name_len(self.disk_name@) as int),
            ),
            exists|n: int|
                0 <= n <= 16 && r@ == utf16::decode_utf16(#[trigger] self.disk_name@.take(n)) && (
                forall|i: int| 0 <= i < n ==> #[trigger] self.disk_name@[i] != 0) && (n < 16
                    ==> self.disk_name@[n] == 0),
    {
        let mut n: usize = 0;
        let ghost u = self.disk_name@;
        assert(u.skip(0) =~= u);
        while n < 16 && self.disk_name[n] != 0
            invariant
                n <= 16,
                u == self.disk_name@,
                u.len() == 16,
                name_len(u) == n + name_len(u.skip(n as int)),
                forall|i: int| 0 <= i < n ==> #[trigger] u[i] != 0,
            decreases 16 - n,
        {
            assert(u.skip(n as int).skip(1) =~= u.skip(n + 1));
            n = n + 1;
        }
        assert(u.take(n as int) =~= self.disk_name@.take(n as int));
        String::from_utf16_lossy(&self.disk_name[0..n])
    }
}

/// Sealing a superblock fills in its checksum only.
proof fn lemma_sb_sealed(sb: Superblock)
    ensures
        sb_bytes(sb).len() == SB_SIZE,
        fmt::csum_ok(sb_bytes(sb)),
        fmt::same_bytes(sb_bytes(sb), sb_body(sb), 0, 4),
        fmt::same_bytes(sb_bytes(sb), sb_body(sb), 8, 512),
{
    assert(sb_body(sb).len() == 512) by {
        reveal(sb_body);
    }
    fmt::lemma_sealed(sb_body(sb));
}

#[verifier::rlimit(60)]
proof fn lemma_sb_flags(sb: Superblock)
    ensures
        fmt::u64_at(sb_bytes(sb), 12) == sb.compat,
        fmt::u64_at(sb_bytes(sb), 20) == sb.ro_compat,
        fmt::u64_at(sb_bytes(sb), 28) == sb.incompat,
        fmt::u32_at(sb_bytes(sb), 36) == sb.blocksize,
        fmt::u16_at(sb_bytes(sb), 40) == sb.inodesize,
{
    let b = sb_bytes(sb);
    lemma_sb_sealed(sb);
    assert(b.subrange(12, 20) =~= fmt::be64(sb.compat)) by {
        reveal(sb_body);
    }
    fmt::lemma_range_u64(b, 12, sb.compat);
    assert(b.subrange(20, 28) =~= fmt::be64(sb.ro_compat)) by {
        reveal(sb_body);
    }
    fmt::lemma_range_u64(b, 20, sb.ro_compat);
    assert(b.subrange(28, 36) =~= fmt::be64(sb.incompat)) by {
        reveal(sb_body);
    }
    fmt::lemma_range_u64(b, 28, sb.incompat);
    assert(b.subrange(36, 40) =~= fmt::be32(sb.blocksize)) by {
        reveal(sb_body);
    }
    fmt::lemma_range_u32(b, 36, sb.blocksize);
    assert(b.subrange(40, 42) =~= fmt::be16(sb.inodesize)) by {
        reveal(sb_body);
    }
    fmt::lemma_range_u16(b, 40, sb.inodesize);
}

#[verifier::rlimit(60)]
proof fn lemma_sb_places(sb: Superblock)
    ensures
        fmt::u64_at(sb_bytes(sb), 90) == sb.root_ino,
        fmt::u32_at(sb_bytes(sb), 98) == sb.next_ag,
        fmt::u64_at(sb_bytes(sb), 102) == sb.agmap_offset,
        fmt::u64_at(sb_bytes(sb), 110) == sb.agmap_length,
{
    let b = sb_bytes(sb);
    lemma_sb_sealed(sb);
    assert(b.subrange(90, 98) =~= fmt::be64(sb.root_ino)) by {
        reveal(sb_body);
    }
    fmt::lemma_range_u64(b, 90, sb.root_ino);
    assert(b.subrange(98, 102) =~= fmt::be32(sb.next_ag)) by {
        reveal(sb_body);
    }
    fmt::lemma_range_u32(b, 98, sb.next_ag);
    assert(b.subrange(102, 110) =~= fmt::be64(sb.agmap_offset)) by {
        reveal(sb_body);
    }
    fmt::lemma_range_u64(b, 102, sb.agmap_offset);
    assert(b.subrange(110, 118) =~= fmt::be64(sb.agmap_length)) by {
        reveal(sb_body);
    }
    fmt::lemma_range_u64(b, 110, sb.agmap_length);
}

#[verifier::rlimit(60)]
proof fn lemma_sb_journal(sb: Superblock)
    ensures
        fmt::u64_at(sb_bytes(sb), 118) == sb.journal_start,
        fmt::u64_at(sb_bytes(sb), 126) == sb.journal_length,
        fmt::u64_at(sb_bytes(sb), 134) == sb.kernel_offset,
        fmt::u64_at(sb_bytes(sb), 142) == sb.kernel_end,
{
    let b = sb_bytes(sb);
    lemma_sb_sealed(sb);
    assert(b.subrange(118, 126) =~= fmt::be64(sb.journal_start)) by {
        reveal(sb_body);
    }
    fmt::lemma_range_u64(b, 118, sb.journal_start);
    assert(b.subrange(126, 134) =~= fmt::be64(sb.journal_length)) by {
        reveal(sb_body);
    }
    fmt::lemma_range_u64(b, 126, sb.journal_length);
    assert(b.subrange(134, 142) =~= fmt::be64(sb.kernel_offset)) by {
        reveal(sb_body);
    }
    fmt::lemma_range_u64(b, 134, sb.kernel_offset);
    assert(b.subrange(142, 150) =~= fmt::be64(sb.kernel_end)) by {
        reveal(sb_body);
    }
    fmt::lemma_range_u64(b, 142, sb.kernel_end);
}

#[verifier::rlimit(60)]
proof fn lemma_sb_counters(sb: Superblock)
    ensures
        fmt::u64_at(sb_bytes(sb), 150) == sb.free_blocks,
        fmt::u64_at(sb_bytes(sb), 158) == sb.rsvd_blocks,
        fmt::u64_at(sb_bytes(sb), 166) == sb.full_blocks,
{
    let b = sb_bytes(sb);
    lemma_sb_sealed(sb);
    assert(b.subrange(150, 158) =~= fmt::be64(sb.free_blocks)) by {
        reveal(sb_body);
    }
    fmt::lemma_range_u64(b, 150, sb.free_blocks);
    assert(b.subrange(158, 166) =~= fmt::be64(sb.rsvd_blocks)) by {
        reveal(sb_body);
    }
    fmt::lemma_range_u64(b, 158, sb.rsvd_blocks);
    assert(b.subrange(166, 174) =~= fmt::be64(sb.full_blocks)) by {
        reveal(sb_body);
    }
    fmt::lemma_range_u64(b, 166, sb.full_blocks);
}

#[verifier::rlimit(60)]
proof fn lemma_sb_state(sb: Superblock)
    ensures
        fmt::u64_at(sb_bytes(sb), 174) == sb.gen,
        fmt::u64_at(sb_bytes(sb), 182) == sb.journal_seq,
        fmt::u64_at(sb_bytes(sb), 190) == sb.journal_head,
{
    let b = sb_bytes(sb);
    lemma_sb_sealed(sb);
    assert(b.subrange(174, 182) =~= fmt::be64(sb.gen)) by {
        reveal(sb_body);
    }
    fmt::lemma_range_u64(b, 174, sb.gen);
    assert(b.subrange(182, 190) =~= fmt::be64(sb.journal_seq)) by {
        reveal(sb_body);
    }
    fmt::lemma_range_u64(b, 182, sb.journal_seq);
    assert(b.subrange(190, 198) =~= fmt::be64(sb.journal_head)) by {
        reveal(sb_body);
    }
    fmt::lemma_range_u64(b, 190, sb.journal_head);
}

#[verifier::rlimit(60)]
proof fn lemma_sb_names(sb: Superblock)
    ensures
        fmt::has_magic(sb_bytes(sb), SB_MAGIC),
        fmt::u32_at(sb_bytes(sb), 8) == VERSION,
        sb_bytes(sb).subrange(42, 58) == sb.uuid@,
        forall|i: int|
            0 <= i < 16 ==> fmt::u16_at(sb_bytes(sb), 58 + 2 * i) == #[trigger] sb.disk_name@[i],
        fmt::zero_bytes(sb_bytes(sb), 198, 512),
{
    let body = sb_body(sb);
    let b = sb_bytes(sb);
    lemma_sb_sealed(sb);
    assert(body[0] == SB_MAGIC@[0] && body[1] == SB_MAGIC@[1] && body[2] == SB_MAGIC@[2] && body[3]
        == SB_MAGIC@[3]) by {
        reveal(sb_body);
    }
    assert(b.subrange(8, 12) =~= fmt::be32(VERSION)) by {
        reveal(sb_body);
    }
    fmt::lemma_range_u32(b, 8, VERSION);
    assert(b.subrange(42, 58) =~= sb.uuid@) by {
        reveal(sb_body);
    }
    let units = dirent::units_bytes(sb.disk_name@);
    assert(b.subrange(58, 90) =~= units) by {
        reveal(sb_body);
    }
    assert forall|i: int| 0 <= i < 16 implies fmt::u16_at(b, 58 + 2 * i)
        == #[trigger] sb.disk_name@[i] by {
        assert(b[58 + 2 * i] == b.subrange(58, 90)[2 * i]);
        assert(b[59 + 2 * i] == b.subrange(58, 90)[2 * i + 1]);
        fmt::lemma_u16_of(b, 58 + 2 * i, sb.disk_name@[i]);
    }
    assert(fmt::zero_bytes(body, 198, 512)) by {
        reveal(sb_body);
    }
}

/// The bytes of an encoded superblock are an image of it.
pub proof fn lemma_sb_image(sb: Superblock)
    ensures
        sb_image(sb_bytes(sb), sb),
{
    reveal(sb_fields);
    lemma_sb_sealed(sb);
    lemma_sb_names(sb);
    lemma_sb_flags(sb);
    lemma_sb_places(sb);
    lemma_sb_journal(sb);
    lemma_sb_counters(sb);
    lemma_sb_state(sb);
}

/// What `to_bytes` writes, `parse` reads back, field for field.
pub proof fn law_superblock_round_trip(sb: Superblock)
    requires
        is_pow2(sb.blocksize as int),
        sb.blocksize >= 512,
    ensures
        sb_parse(sb_bytes(sb)) == Ok::<Superblock, FmtError>(sb),
{
    reveal(sb_fields);
    lemma_sb_image(sb);
    let b = sb_bytes(sb);
    assert(b.take(512) =~= b);
    law_superblock_unique(b, sb, choose|x: Superblock| sb_fields(b, x));
}

/// The bytes pin the fields: two superblocks that the same bytes encode are
/// the same.
pub proof fn law_superblock_unique(b: Seq<u8>, x: Superblock, y: Superblock)
    requires
        sb_fields(b, x),
        sb_fields(b, y),
    ensures
        x == y,
{
    reveal(sb_fields);
    reveal(sb_body);
    assert forall|i: int| 0 <= i < 16 implies x.disk_name@[i] == y.disk_name@[i] by {
        assert(fmt::u16_at(b, 58 + 2 * i) == x.disk_name@[i]);
        assert(fmt::u16_at(b, 58 + 2 * i) == y.disk_name@[i]);
    }
    assert(x.disk_name@ =~= y.disk_name@);
    assert(x.disk_name =~= y.disk_name);
    assert(x.uuid =~= y.uuid);
}

} // verus!
