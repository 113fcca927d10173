//! What freeing does to the counters, and that nothing is freed twice.

use crate::allocator::Pool;
use crate::error::FsError;
use crate::fmt::CELL_FREE;
use crate::header::AgHeader;
use crate::vol::Vol;
use vstd::prelude::*;

use crate::allocator;
use crate::allocator_laws;
use crate::fmt;
use crate::fs;
use crate::tables;

verus! {

/// Freeing moves the blocks that it frees, and no others, from the used ones to the
/// free ones, in the counters of the group and in those of the volume.
pub proof fn law_freeing_counts_its_blocks(v: Vol, p: Pool, blk: u64, hdr: AgHeader, n: int)
    requires
        0 <= n,
        fs::header_of(v, p.t, fmt::addr_ag(blk)) == Ok::<AgHeader, FsError>(hdr),
        hdr.ag_num == fmt::addr_ag(blk),
        tables::sound(v, p.t, hdr),
        fmt::addr_local(blk) + n <= tables::block_count(hdr),
        allocator::freed(v, p, blk, n).1 is Ok,
    ensures
        ({
            let p1 = allocator::freed(v, p, blk, n).0;
            let b = fmt::addr_local(blk) as int;
            let end = allocator_laws::freed_end(v, p.t, hdr, b, n);
            let k = end - b;
            &&& k >= n
            &&& allocator_laws::given(v, p.t, p1.t, hdr, b, end)
            &&& p1.full == p.full - k
            &&& p1.free == p.free + k
            &&& p1.rsvd == p.rsvd
            &&& fs::header_of(v, p1.t, hdr.ag_num) matches Ok(hdr1) && hdr1.full_blocks
                == hdr.full_blocks - k && hdr1.free_blocks == hdr.free_blocks + k
                && hdr1.rsvd_blocks == hdr.rsvd_blocks
        }),
{
    allocator_laws::law_freeing_frees_its_blocks(v, p, blk, hdr, n);
    reveal(allocator::freed);
    let s = allocator::with_hdr(p, hdr);
    let local = fmt::addr_local(blk);
    let len = allocator_laws::lemma_free_from(v, s, local, 0, n);
    let (s1, r1) = allocator::free_from(v, s, hdr.ag_num, local, 0, n);
    reveal(allocator_laws::well_given);
    tables::lemma_header_to(v, s1);
}

/// A block that is free cannot be freed: that is refused, and nothing changes. So
/// freeing the same blocks a second time is refused and leaves every counter as it is.
pub proof fn law_free_block_cannot_be_freed(v: Vol, p: Pool, blk: u64, hdr: AgHeader, n: int)
    requires
        0 < n,
        fs::header_of(v, p.t, fmt::addr_ag(blk)) == Ok::<AgHeader, FsError>(hdr),
        hdr.ag_num == fmt::addr_ag(blk),
        tables::block_state(v, p.t, hdr, fmt::addr_local(blk) as int) == Ok::<u8, FsError>(
            CELL_FREE,
        ),
    ensures
        allocator::freed(v, p, blk, n).0 == p,
        allocator::freed(v, p, blk, n).1 is Err,
{
    reveal(allocator::freed);
    let s = allocator::with_hdr(p, hdr);
    let local = fmt::addr_local(blk);
    let (s1, r1) = allocator::free_one(v, s, hdr.ag_num, local);
    assert(s1 == s && r1 is Err) by {
        reveal(allocator::free_one);
        reveal(allocator::free_inside);
        let c = local as int / 256;
        assert(c == (local / 256) as int);
    }
    assert(allocator::free_from(v, s, hdr.ag_num, local, 0, n).0 == s);
}

/// What was freed cannot be freed again.
pub proof fn law_second_free_is_refused(v: Vol, p: Pool, blk: u64, hdr: AgHeader, n: int)
    requires
        0 < n,
        fs::header_of(v, p.t, fmt::addr_ag(blk)) == Ok::<AgHeader, FsError>(hdr),
        hdr.ag_num == fmt::addr_ag(blk),
        tables::sound(v, p.t, hdr),
        fmt::addr_local(blk) + n <= tables::block_count(hdr),
        allocator::freed(v, p, blk, n).1 is Ok,
    ensures
        ({
            let p1 = allocator::freed(v, p, blk, n).0;
            let (p2, r2) = allocator::freed(v, p1, blk, n);
            r2 is Err && p2 == p1
        }),
{
    let p1 = allocator::freed(v, p, blk, n).0;
    let b = fmt::addr_local(blk) as int;
    let end = allocator_laws::freed_end(v, p.t, hdr, b, n);
    allocator_laws::law_freeing_frees_its_blocks(v, p, blk, hdr, n);
    let hdr1 = fs::header_of(v, p1.t, hdr.ag_num)->Ok_0;
    assert(allocator_laws::given_at(v, p.t, p1.t, hdr, b, end, b));
    tables::lemma_state_place(v, p1.t, hdr, hdr1, b);
    law_free_block_cannot_be_freed(v, p1, blk, hdr1, n);
}

} // verus!
