//! Allocation group headers and the geometry of the allocator root table.

use crate::fmt::{
    csum_matches, div_up, get_u32, get_u64, magic_is, put_magic, put_u32, put_u64, seal, FmtError,
    AGHDR_SIZE, AG_MAGIC, CELL_BLOCKS,
};
use vstd::prelude::*;

use crate::fmt;

verus! {

#[derive(Debug, Clone, Copy, PartialEq, Eq, Structural)]
pub struct AgHeader {
    pub ag_num: u32,
    pub gen: u64,
    /// Length in blocks.
    pub length: u32,
    pub free_blocks: u32,
    pub rsvd_blocks: u32,
    pub full_blocks: u32,
    /// First block of the allocator root table, within the group.
    pub alloc_root: u32,
    /// Block in which new inodes are placed, 0 if none.
    pub ino_hint: u32,
    pub data_hint: u32,
    /// First block of the active table arena, 0 if none.
    pub tbl_arena: u32,
}

impl Default for AgHeader {
    fn default() -> (r: Self)
        ensures
            r == (AgHeader {
                ag_num: 0,
                gen: 0,
                length: 0,
                free_blocks: 0,
                rsvd_blocks: 0,
                full_blocks: 0,
                alloc_root: 0,
                ino_hint: 0,
                data_hint: 0,
                tbl_arena: 0,
            }),
    {
        AgHeader {
            ag_num: 0,
            gen: 0,
            length: 0,
            free_blocks: 0,
            rsvd_blocks: 0,
            full_blocks: 0,
            alloc_root: 0,
            ino_hint: 0,
            data_hint: 0,
            tbl_arena: 0,
        }
    }
}

/// The header whose fields stand at their places in `b`.
#[verifier::opaque]
pub open spec fn hdr_decode(b: Seq<u8>) -> AgHeader {
    AgHeader {
        ag_num: fmt::u32_at(b, 8),
        gen: fmt::u64_at(b, 12),
        length: fmt::u32_at(b, 20),
        free_blocks: fmt::u32_at(b, 24),
        rsvd_blocks: fmt::u32_at(b, 28),
        full_blocks: fmt::u32_at(b, 32),
        alloc_root: fmt::u32_at(b, 36),
        ino_hint: fmt::u32_at(b, 40),
        data_hint: fmt::u32_at(b, 44),
        tbl_arena: fmt::u32_at(b, 48),
    }
}

/// The encoding of `h` before its checksum is filled in.
#[verifier::opaque]
pub open spec fn hdr_body(h: AgHeader) -> Seq<u8> {
    AG_MAGIC@ + fmt::zeros(4) + fmt::be32(h.ag_num) + fmt::be64(h.gen) + fmt::be32(h.length)
        + fmt::be32(h.free_blocks) + fmt::be32(h.rsvd_blocks) + fmt::be32(h.full_blocks)
        + fmt::be32(h.alloc_root) + fmt::be32(h.ino_hint) + fmt::be32(h.data_hint) + fmt::be32(
        h.tbl_arena,
    ) + fmt::zeros(12)
}

/// The encoding of `h`.
pub open spec fn hdr_image(h: AgHeader) -> Seq<u8> {
    fmt::sealed(hdr_body(h))
}

/// The header at the start of `b`, or what is wrong with it.
pub open spec fn hdr_parse(b: Seq<u8>) -> Result<AgHeader, FmtError> {
    let s = b.take(AGHDR_SIZE as int);
    if b.len() < AGHDR_SIZE {
        Err(FmtError::ShortRead)
    } else if !fmt::has_magic(s, AG_MAGIC) {
        Err(FmtError::BadMagic)
    } else if !fmt::csum_ok(s) {
        Err(FmtError::BadChecksum)
    } else {
        Ok(hdr_decode(s))
    }
}

impl AgHeader {
    pub fn to_bytes(&self) -> (r: [u8; 64])
        ensures
            r@ == hdr_image(*self),
    {
        proof {
            reveal(hdr_body);
            reveal(hdr_decode);
        }
        let mut b = [0u8; 64];
        put_magic(&mut b, &AG_MAGIC);
        put_u32(&mut b, 8, self.ag_num);
        put_u64(&mut b, 12, self.gen);
        put_u32(&mut b, 20, self.length);
        put_u32(&mut b, 24, self.free_blocks);
        put_u32(&mut b, 28, self.rsvd_blocks);
        put_u32(&mut b, 32, self.full_blocks);
        put_u32(&mut b, 36, self.alloc_root);
        put_u32(&mut b, 40, self.ino_hint);
        put_u32(&mut b, 44, self.data_hint);
        put_u32(&mut b, 48, self.tbl_arena);
        assert(b@ =~= hdr_body(*self));
        seal(&mut b);
        b
    }

    pub fn parse(b: &[u8]) -> (r: Result<Self, FmtError>)
        ensures
            r == hdr_parse(b@),
    {
        proof {
            reveal(hdr_body);
            reveal(hdr_decode);
        }
        if b.len() < AGHDR_SIZE {
            return Err(FmtError::ShortRead);
        }
        let b: &[u8] = &b[0..AGHDR_SIZE];
        if !magic_is(b, &AG_MAGIC) {
            return Err(FmtError::BadMagic);
        }
        if !csum_matches(b) {
            return Err(FmtError::BadChecksum);
        }
        Ok(
            AgHeader {
                ag_num: get_u32(b, 8),
                gen: get_u64(b, 12),
                length: get_u32(b, 20),
                free_blocks: get_u32(b, 24),
                rsvd_blocks: get_u32(b, 28),
                full_blocks: get_u32(b, 32),
                alloc_root: get_u32(b, 36),
                ino_hint: get_u32(b, 40),
                data_hint: get_u32(b, 44),
                tbl_arena: get_u32(b, 48),
            },
        )
    }
}

/// What `to_bytes` writes, `parse` reads back, also with more bytes behind.
pub proof fn law_header_round_trip(h: AgHeader, rest: Seq<u8>)
    ensures
        hdr_image(h).len() == AGHDR_SIZE,
        hdr_parse(hdr_image(h) + rest) == Ok::<AgHeader, FmtError>(h),
{
    reveal(hdr_body);
    reveal(hdr_decode);
    let body = hdr_body(h);
    assert(body.len() == 64);
    fmt::lemma_sealed(body);
    let b = hdr_image(h);
    assert((b + rest).take(64) =~= b);
    assert(b.subrange(8, 12) =~= fmt::be32(h.ag_num)) by {
        assert(body.subrange(8, 12) =~= fmt::be32(h.ag_num));
        assert(b.subrange(8, 12) =~= body.subrange(8, 12));
    }
    fmt::lemma_range_u32(b, 8, h.ag_num);
    assert(b.subrange(12, 20) =~= fmt::be64(h.gen)) by {
        assert(body.subrange(12, 20) =~= fmt::be64(h.gen));
        assert(b.subrange(12, 20) =~= body.subrange(12, 20));
    }
    fmt::lemma_range_u64(b, 12, h.gen);
    assert(b.subrange(20, 24) =~= fmt::be32(h.length)) by {
        assert(body.subrange(20, 24) =~= fmt::be32(h.length));
        assert(b.subrange(20, 24) =~= body.subrange(20, 24));
    }
    fmt::lemma_range_u32(b, 20, h.length);
    assert(b.subrange(24, 28) =~= fmt::be32(h.free_blocks)) by {
        assert(body.subrange(24, 28) =~= fmt::be32(h.free_blocks));
        assert(b.subrange(24, 28) =~= body.subrange(24, 28));
    }
    fmt::lemma_range_u32(b, 24, h.free_blocks);
    assert(b.subrange(28, 32) =~= fmt::be32(h.rsvd_blocks)) by {
        assert(body.subrange(28, 32) =~= fmt::be32(h.rsvd_blocks));
        assert(b.subrange(28, 32) =~= body.subrange(28, 32));
    }
    fmt::lemma_range_u32(b, 28, h.rsvd_blocks);
    assert(b.subrange(32, 36) =~= fmt::be32(h.full_blocks)) by {
        assert(body.subrange(32, 36) =~= fmt::be32(h.full_blocks));
        assert(b.subrange(32, 36) =~= body.subrange(32, 36));
    }
    fmt::lemma_range_u32(b, 32, h.full_blocks);
    assert(b.subrange(36, 40) =~= fmt::be32(h.alloc_root)) by {
        assert(body.subrange(36, 40) =~= fmt::be32(h.alloc_root));
        assert(b.subrange(36, 40) =~= body.subrange(36, 40));
    }
    fmt::lemma_range_u32(b, 36, h.alloc_root);
    assert(b.subrange(40, 44) =~= fmt::be32(h.ino_hint)) by {
        assert(body.subrange(40, 44) =~= fmt::be32(h.ino_hint));
        assert(b.subrange(40, 44) =~= body.subrange(40, 44));
    }
    fmt::lemma_range_u32(b, 40, h.ino_hint);
    assert(b.subrange(44, 48) =~= fmt::be32(h.data_hint)) by {
        assert(body.subrange(44, 48) =~= fmt::be32(h.data_hint));
        assert(b.subrange(44, 48) =~= body.subrange(44, 48));
    }
    fmt::lemma_range_u32(b, 44, h.data_hint);
    assert(b.subrange(48, 52) =~= fmt::be32(h.tbl_arena)) by {
        assert(body.subrange(48, 52) =~= fmt::be32(h.tbl_arena));
        assert(b.subrange(48, 52) =~= body.subrange(48, 52));
    }
    fmt::lemma_range_u32(b, 48, h.tbl_arena);
    assert(fmt::has_magic(b, AG_MAGIC)) by {
        assert(b[0] == body[0] && b[1] == body[1] && b[2] == body[2] && b[3] == body[3]);
    }
}

// --- allocator root table -----------------------------------------------------

/// Level-0 cells of a group of `ag_blocks` blocks.
pub open spec fn cell_count(ag_blocks: u32) -> int {
    fmt::ceil_div(ag_blocks as int, CELL_BLOCKS as int)
}

/// Bytes of the state array over the level-0 cells.
pub open spec fn state_bytes(cells: int) -> int {
    fmt::ceil_div(cells, 4)
}

/// Blocks of the whole root table: the state array and a 6-byte child
/// reference per cell.
pub open spec fn table_blocks(ag_blocks: u32, bs: u32) -> int {
    fmt::ceil_div(state_bytes(cell_count(ag_blocks)) + 6 * cell_count(ag_blocks), bs as int)
}

/// Geometry of the level-0 state array: (cells, size of the array in blocks).
pub fn rt_geometry(ag_blocks: u32, blocksize: u32) -> (r: (u64, u32))
    requires
        blocksize > 0,
    ensures
        r.0 == cell_count(ag_blocks),
        r.1 == fmt::ceil_div(state_bytes(cell_count(ag_blocks)), blocksize as int),
        r.0 <= 0x100_0000,
{
    let cells = div_up(ag_blocks as u64, CELL_BLOCKS as u64);
    let bytes = div_up(cells, 4);
    (cells, div_up(bytes, blocksize as u64) as u32)
}

/// Size of the whole root table in blocks, references included.
pub fn rt_table_blocks(ag_blocks: u32, blocksize: u32) -> (r: u32)
    requires
        blocksize > 0,
    ensures
        r == table_blocks(ag_blocks, blocksize),
        r * blocksize >= state_bytes(cell_count(ag_blocks)) + 6 * cell_count(ag_blocks),
        r <= 0x640_0000,
{
    let (cells, _) = rt_geometry(ag_blocks, blocksize);
    let bytes = div_up(cells, 4) + 6 * cells;
    div_up(bytes, blocksize as u64) as u32
}

/// Byte offset, within the root table, of the child reference of cell `c`.
pub fn rt_ref_off(cells: u64, c: u64) -> (r: u64)
    requires
        cells <= 0x100_0000,
        c <= 0x100_0000,
    ensures
        r == state_bytes(cells as int) + 6 * c,
{
    div_up(cells, 4) + 6 * c
}

} // verus!
