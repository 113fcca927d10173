//! Inode slots: a slot that is handed out is empty, nothing in use is touched
//! for it, and a slot that is released is empty again.

use crate::allocator::Pool;
use crate::error::FsError;
use crate::fmt::{CELL_FREE, CELL_FULL, CELL_RSVD};
use crate::header::AgHeader;
use crate::vol::Vol;
use vstd::prelude::*;

use crate::allocator;
use crate::allocator_laws;
use crate::fmt;
use crate::fs;
use crate::let_go;
use crate::roottable;
use crate::spares;
use crate::tables;
use crate::vol;

verus! {

/// The block of group `ag` that holds slot number `n`.
pub open spec fn slot_block(bs: u32, isz: u16, ag: u32, n: u32) -> u64 {
    fmt::addr_of(ag, (n as int / (bs as int / isz as int)) as u32)
}

/// The place of slot number `n` in its block.
pub open spec fn slot_index(bs: u32, isz: u16, n: u32) -> int {
    n as int % (bs as int / isz as int)
}

/// The slot that inode number `ino` names holds nothing but zeros.
pub open spec fn slot_is_empty(v: Vol, t: Map<u64, Seq<u8>>, isz: u16, ino: u64) -> bool {
    let n = fmt::addr_local(ino);
    vol::rd(v, t, slot_block(v.bs, isz, fmt::addr_ag(ino), n)) matches Ok(b)
        && allocator::slot_free(b, isz as int, slot_index(v.bs, isz, n))
}

/// Block and index of a slot number.
proof fn lemma_slot(v: Vol, isz: u16, ag: u32, local: u32, k: int)
    requires
        0 < isz <= v.bs,
        0 <= k < v.bs as int / isz as int,
        allocator::slot_ino(ag, local, v.bs as int / isz as int, k) is Ok,
    ensures
        ({
            let ino = allocator::slot_ino(ag, local, v.bs as int / isz as int, k)->Ok_0;
            &&& fmt::addr_ag(ino) == ag
            &&& slot_block(v.bs, isz, ag, fmt::addr_local(ino)) == fmt::addr_of(ag, local)
            &&& slot_index(v.bs, isz, fmt::addr_local(ino)) == k
        }),
{
    let slots = v.bs as int / isz as int;
    let n = local * slots + k;
    assert(0 <= n) by (nonlinear_arith)
        requires
            n == local * slots + k,
            0 <= local,
            0 < slots,
            0 <= k,
    ;
    fmt::law_address_halves(ag, n as u32, 0);
    vstd::arithmetic::div_mod::lemma_fundamental_div_mod_converse(n, slots, local as int, k);
}

/// The first free slot is free.
proof fn lemma_first_slot(b: Seq<u8>, isz: int, k: int, slots: int)
    requires
        0 <= k,
    ensures
        allocator::first_slot(b, isz, k, slots) matches Some(i) ==> k <= i < slots
            && allocator::slot_free(b, isz, i),
    decreases slots - k,
{
    if k < slots && !allocator::slot_free(b, isz, k) {
        lemma_first_slot(b, isz, k + 1, slots);
    }
}

/// A block in use is not the one that holds the header.
proof fn lemma_not_header(v: Vol, t: Map<u64, Seq<u8>>, hdr: AgHeader, blk: u64)
    requires
        tables::sound(v, t, hdr),
        fmt::addr_ag(blk) == hdr.ag_num,
        tables::block_state(v, t, hdr, fmt::addr_local(blk) as int) == Ok::<u8, FsError>(
            CELL_FULL,
        ),
    ensures
        blk != fmt::addr_of(hdr.ag_num, fs::header_local(hdr.ag_num)),
{
    let h = fs::header_local(hdr.ag_num);
    fmt::law_address_halves(hdr.ag_num, h, 0);
    assert(!tables::off_root(hdr, v.bs, h));
    assert(roottable::cell_of(v, t, hdr, 0) == Ok::<u8, FsError>(CELL_RSVD));
}

/// A new block for inodes: it reads as zeros, the tables stay sound, and
/// nothing in use was written.
#[verifier::rlimit(40)]
proof fn lemma_new_inode_block(v: Vol, p: Pool, ag: u32, hdr: AgHeader) -> (hdr1: AgHeader)
    requires
        fs::header_of(v, p.t, ag) == Ok::<AgHeader, FsError>(hdr),
        hdr.ag_num == ag,
        tables::sound(v, p.t, hdr),
        allocator::allocated(v, p, ag, 1).1 is Ok,
        ({
            let (p1, r1) = allocator::allocated(v, p, ag, 1);
            let p2 = Pool { t: p1.t.insert(r1->Ok_0, fmt::zeros(v.bs as nat)), ..p1 };
            allocator::hint_to(v, p2, ag, fmt::addr_local(r1->Ok_0)).1 is Ok
        }),
    ensures
        ({
            let (p1, r1) = allocator::allocated(v, p, ag, 1);
            let blk = r1->Ok_0;
            let p2 = Pool { t: p1.t.insert(blk, fmt::zeros(v.bs as nat)), ..p1 };
            let p3 = allocator::hint_to(v, p2, ag, fmt::addr_local(blk)).0;
            &&& fmt::addr_ag(blk) == ag
            &&& vol::rd(v, p3.t, blk) == Ok::<Seq<u8>, FsError>(fmt::zeros(v.bs as nat))
            &&& fs::header_of(v, p3.t, ag) == Ok::<AgHeader, FsError>(hdr1)
            &&& tables::same_place(hdr, hdr1)
            &&& tables::sound(v, p3.t, hdr1)
            &&& spares::spares(v, p.t, p3.t, hdr)
        }),
{
    let (p1, r1) = allocator::allocated(v, p, ag, 1);
    let blk = r1->Ok_0;
    let b = fmt::addr_local(blk) as int;
    let z = fmt::zeros(v.bs as nat);
    let p2 = Pool { t: p1.t.insert(blk, z), ..p1 };
    let p3 = allocator::hint_to(v, p2, ag, fmt::addr_local(blk)).0;
    allocator_laws::law_allocated_blocks_were_free(v, p, ag, 1);
    allocator_laws::law_allocation_marks_its_blocks(v, p, ag, hdr, 1);
    spares::law_allocation_spares_used_blocks(v, p, ag, hdr, 1);
    let h1 = fs::header_of(v, p1.t, ag)->Ok_0;
    assert(allocator_laws::taken_at(v, p.t, p1.t, hdr, b, b + allocator_laws::granted(1), b));
    tables::lemma_state_place(v, p1.t, hdr, h1, b);
    tables::lemma_foreign_write(v, p1.t, h1, blk, z);
    let h2 = AgHeader { ino_hint: fmt::addr_local(blk), ..h1 };
    tables::lemma_sound_hdr(v, p2.t, h1, h2);
    tables::lemma_header_to(v, allocator::with_hdr(p2, h2));
    lemma_not_header(v, p1.t, h1, blk);
    let h = fmt::addr_of(ag, fs::header_local(ag));
    assert forall|x: u64| spares::kept_safe(v, p.t, hdr, x) implies #[trigger] vol::rd(v, p3.t, x)
        == vol::rd(v, p.t, x) by {
        assert(vol::rd(v, p1.t, x) == vol::rd(v, p.t, x));
        fmt::law_address_halves(ag, fs::header_local(ag), x);
        if x == h {
            lemma_not_header(v, p.t, hdr, x);
        }
        if x == blk {
            assert(allocator_laws::all_state(v, p.t, hdr, b, b + 1, CELL_FREE));
            assert(tables::block_state(v, p.t, hdr, b) == Ok::<u8, FsError>(CELL_FREE));
        }
    }
    AgHeader { gen: (h2.gen + 1) as u64, ..h2 }
}

/// Allocating an inode hands out an empty slot of the group; nothing in use is
/// written, and the tables stay sound.
pub proof fn law_allocated_slot_is_empty(v: Vol, p: Pool, isz: u16, ag: u32, hdr: AgHeader) -> (hdr1:
    AgHeader)
    requires
        fs::header_of(v, p.t, ag) == Ok::<AgHeader, FsError>(hdr),
        hdr.ag_num == ag,
        tables::sound(v, p.t, hdr),
        allocator::inode_allocated(v, p, isz, ag).1 is Ok,
    ensures
        ({
            let (p1, r1) = allocator::inode_allocated(v, p, isz, ag);
            let ino = r1->Ok_0;
            &&& fmt::addr_ag(ino) == ag
            &&& slot_is_empty(v, p1.t, isz, ino)
            &&& fs::header_of(v, p1.t, ag) == Ok::<AgHeader, FsError>(hdr1)
            &&& tables::same_place(hdr, hdr1)
            &&& tables::sound(v, p1.t, hdr1)
            &&& spares::spares(v, p.t, p1.t, hdr)
        }),
{
    let slots = v.bs as int / isz as int;
    assert(slots >= 1) by (nonlinear_arith)
        requires
            slots == v.bs as int / (isz as int),
            0 < isz <= v.bs,
    ;
    if let Ok(Some(_)) = allocator::hinted_slot(v, p.t, isz, ag, hdr.ino_hint) {
        let b = vol::rd(v, p.t, fmt::addr_of(ag, hdr.ino_hint))->Ok_0;
        lemma_first_slot(b, isz as int, 0, slots);
        let k = allocator::first_slot(b, isz as int, 0, slots)->Some_0;
        lemma_slot(v, isz, ag, hdr.ino_hint, k);
        hdr
    } else {
        let blk = allocator::allocated(v, p, ag, 1).1->Ok_0;
        let hdr1 = lemma_new_inode_block(v, p, ag, hdr);
        fmt::law_address_halves(0, 0, blk);
        lemma_slot(v, isz, ag, fmt::addr_local(blk), 0);
        hdr1
    }
}

/// Storing the hint of a group changes no block.
proof fn lemma_hint_let_go(v: Vol, p: Pool, ag: u32, hdr: AgHeader, local: u32, d: Set<int>)
    requires
        fs::header_of(v, p.t, ag) == Ok::<AgHeader, FsError>(hdr),
        hdr.ag_num == ag,
        tables::sound(v, p.t, hdr),
        allocator::hint_to(v, p, ag, local).1 is Ok,
    ensures
        let_go::let_go(v, p.t, hdr, allocator::hint_to(v, p, ag, local).0.t, d),
{
    let h3 = AgHeader { ino_hint: local, ..hdr };
    let p3 = allocator::hint_to(v, p, ag, local).0;
    tables::lemma_sound_hdr(v, p.t, hdr, h3);
    tables::lemma_header_to(v, allocator::with_hdr(p, h3));
    let_go::lemma_let_go_same(v, p.t, h3, p3.t, d);
    let_go::lemma_let_go_place(v, p.t, h3, hdr, p3.t, d);
}

/// Releasing an inode slot lets go of its block at most.
#[verifier::rlimit(40)]
#[verifier::spinoff_prover]
proof fn lemma_slot_let_go(v: Vol, p: Pool, isz: u16, ino: u64, hdr: AgHeader)
    requires
        fs::header_of(v, p.t, fmt::addr_ag(ino)) == Ok::<AgHeader, FsError>(hdr),
        hdr.ag_num == fmt::addr_ag(ino),
        tables::sound(v, p.t, hdr),
        isz > 0,
        ({
            let b = fmt::addr_local(
                slot_block(v.bs, isz, fmt::addr_ag(ino), fmt::addr_local(ino)),
            ) as int;
            &&& b < tables::block_count(hdr)
            &&& tables::block_state(v, p.t, hdr, b) == Ok::<u8, FsError>(CELL_FULL)
        }),
        allocator::inode_freed(v, p, isz, ino).1 is Ok,
    ensures
        ({
            let blk = slot_block(v.bs, isz, fmt::addr_ag(ino), fmt::addr_local(ino));
            let_go::let_go(
                v,
                p.t,
                hdr,
                allocator::inode_freed(v, p, isz, ino).0.t,
                set![fmt::addr_local(blk) as int],
            )
        }),
{
    let ag = fmt::addr_ag(ino);
    let n = fmt::addr_local(ino);
    let slots = v.bs as int / isz as int;
    let local = (n as int / slots) as u32;
    let k = n as int % slots;
    let blk = fmt::addr_of(ag, local);
    let b = vol::rd(v, p.t, blk)->Ok_0;
    let b1 = fmt::splice(b, k * isz, fmt::zeros(isz as nat));
    let p1 = Pool { t: p.t.insert(blk, b1), ..p };
    let d = set![local as int];
    let pe = allocator::inode_freed(v, p, isz, ino).0;
    fmt::law_address_halves(ag, local, 0);
    vol::lemma_rd_len(v, p.t, blk);
    tables::lemma_foreign_write(v, p.t, hdr, blk, b1);
    lemma_not_header(v, p.t, hdr, blk);
    assert(b1.len() == v.bs);
    let_go::lemma_let_go_same(v, p.t, hdr, p1.t, d);
    assert(fs::header_of(v, p1.t, ag) == Ok::<AgHeader, FsError>(hdr));
    if fmt::zero_bytes(b1, 0, b1.len() as int) {
        let p2 = allocator::freed(v, p1, blk, 1).0;
        allocator_laws::law_freeing_frees_its_blocks(v, p1, blk, hdr, 1);
        let h2 = fs::header_of(v, p2.t, ag)->Ok_0;
        let_go::lemma_run_let_go(v, p1, blk, hdr, 1);
        assert(let_go::span(local as int, local + 1) =~= d);
        let_go::lemma_let_go_twice(v, p.t, hdr, p1.t, hdr, p2.t, d);
        if h2.ino_hint == local {
            assert(pe == allocator::hint_to(v, p2, ag, 0).0);
            lemma_hint_let_go(v, p2, ag, h2, 0, d);
            let_go::lemma_let_go_twice(v, p.t, hdr, p2.t, h2, pe.t, d);
        }
    } else if hdr.ino_hint != local {
        lemma_hint_let_go(v, p1, ag, hdr, local, d);
        let_go::lemma_let_go_twice(v, p.t, hdr, p1.t, hdr, pe.t, d);
    }
}

/// Releasing an inode slot of a block in use: the slot is empty and the rest of
/// its block is as it was; or the whole block was empty then, and is free. The
/// tables stay sound, and every block that shares no smallest cell with that of the slot
/// keeps its state.
#[verifier::rlimit(40)]
pub proof fn law_freed_slot_is_empty(v: Vol, p: Pool, isz: u16, ino: u64, hdr: AgHeader) -> (hdr1:
    AgHeader)
    requires
        fs::header_of(v, p.t, fmt::addr_ag(ino)) == Ok::<AgHeader, FsError>(hdr),
        hdr.ag_num == fmt::addr_ag(ino),
        tables::sound(v, p.t, hdr),
        isz > 0,
        ({
            let b = fmt::addr_local(
                slot_block(v.bs, isz, fmt::addr_ag(ino), fmt::addr_local(ino)),
            ) as int;
            &&& b < tables::block_count(hdr)
            &&& tables::block_state(v, p.t, hdr, b) == Ok::<u8, FsError>(CELL_FULL)
        }),
        allocator::inode_freed(v, p, isz, ino).1 is Ok,
    ensures
        ({
            let p1 = allocator::inode_freed(v, p, isz, ino).0;
            let n = fmt::addr_local(ino);
            let blk = slot_block(v.bs, isz, fmt::addr_ag(ino), n);
            let k = slot_index(v.bs, isz, n);
            &&& fs::header_of(v, p1.t, hdr.ag_num) == Ok::<AgHeader, FsError>(hdr1)
            &&& tables::same_place(hdr, hdr1)
            &&& tables::sound(v, p1.t, hdr1)
            &&& tables::block_state(v, p1.t, hdr, fmt::addr_local(blk) as int) == Ok::<u8, FsError>(
                CELL_FREE,
            ) || (slot_is_empty(v, p1.t, isz, ino) && vol::rd(v, p1.t, blk) == Ok::<
                Seq<u8>,
                FsError,
            >(
                fmt::splice(vol::rd(v, p.t, blk)->Ok_0, k * isz, fmt::zeros(isz as nat)),
            ))
            &&& forall|x: int|
                0 <= x < tables::block_count(hdr) && !let_go::near(
                    v,
                    p.t,
                    hdr,
                    set![fmt::addr_local(blk) as int],
                    x,
                ) ==> #[trigger] tables::block_state(v, p1.t, hdr, x) == tables::block_state(
                    v,
                    p.t,
                    hdr,
                    x,
                )
        }),
{
    let ag = fmt::addr_ag(ino);
    let n = fmt::addr_local(ino);
    let slots = v.bs as int / isz as int;
    let local = (n as int / slots) as u32;
    let k = n as int % slots;
    let blk = fmt::addr_of(ag, local);
    let b = vol::rd(v, p.t, blk)->Ok_0;
    let b1 = fmt::splice(b, k * isz, fmt::zeros(isz as nat));
    let p1 = Pool { t: p.t.insert(blk, b1), ..p };
    fmt::law_address_halves(ag, local, 0);
    lemma_slot_let_go(v, p, isz, ino, hdr);
    let d = set![local as int];
    let pe = allocator::inode_freed(v, p, isz, ino).0;
    assert forall|x: int|
        0 <= x < tables::block_count(hdr) && !let_go::near(
            v,
            p.t,
            hdr,
            d,
            x,
        ) implies #[trigger] tables::block_state(v, pe.t, hdr, x) == tables::block_state(
        v,
        p.t,
        hdr,
        x,
    ) by {
        let_go::lemma_spared(v, p.t, hdr, pe.t, d, x);
    }
    vol::lemma_rd_len(v, p.t, blk);
    tables::lemma_foreign_write(v, p.t, hdr, blk, b1);
    lemma_not_header(v, p.t, hdr, blk);
    assert(slots >= 1) by (nonlinear_arith)
        requires
            slots == v.bs as int / (isz as int),
            0 < isz <= v.bs,
    ;
    assert(0 <= k * isz && k * isz + isz <= v.bs) by (nonlinear_arith)
        requires
            0 <= k < slots,
            slots == v.bs as int / (isz as int),
            isz > 0,
    ;
    assert(allocator::slot_free(b1, isz as int, k));
    if fmt::zero_bytes(b1, 0, b1.len() as int) {
        allocator_laws::law_freeing_frees_its_blocks(v, p1, blk, hdr, 1);
        let p2 = allocator::freed(v, p1, blk, 1).0;
        let h2 = fs::header_of(v, p2.t, ag)->Ok_0;
        let end = allocator_laws::freed_end(v, p1.t, hdr, local as int, 1);
        assert(allocator_laws::given_at(v, p1.t, p2.t, hdr, local as int, end, local as int));
        if h2.ino_hint == local {
            let h3 = AgHeader { ino_hint: 0, ..h2 };
            tables::lemma_sound_hdr(v, p2.t, h2, h3);
            tables::lemma_header_to(v, allocator::with_hdr(p2, h3));
            let p3 = allocator::hint_to(v, p2, ag, 0).0;
            tables::lemma_state_place(v, p3.t, hdr, h3, local as int);
            tables::lemma_state_place(v, p2.t, hdr, h3, local as int);
            AgHeader { gen: (h3.gen + 1) as u64, ..h3 }
        } else {
            h2
        }
    } else if hdr.ino_hint != local {
        let h3 = AgHeader { ino_hint: local, ..hdr };
        tables::lemma_sound_hdr(v, p1.t, hdr, h3);
        tables::lemma_header_to(v, allocator::with_hdr(p1, h3));
        AgHeader { gen: (h3.gen + 1) as u64, ..h3 }
    } else {
        hdr
    }
}

// --- which slot, and when a block goes ----------------------------------------

proof fn lemma_slot_taken(b: Seq<u8>, isz: int, i: int, slots: int, k: int)
    requires
        0 <= i <= k < slots,
        forall|x: int| k * isz <= x < k * isz + isz ==> #[trigger] b[x] == 0,
        forall|j: int| i <= j < k ==> !#[trigger] allocator::slot_free(b, isz, j),
    ensures
        allocator::first_slot(b, isz, i, slots) == Some(k),
    decreases k - i,
{
    if i < k {
        assert(!allocator::slot_free(b, isz, i));
        lemma_slot_taken(b, isz, i + 1, slots, k);
    } else {
        assert(allocator::slot_free(b, isz, k));
    }
}

/// A new inode goes to the first slot of all zeros in the block in use for new
/// inodes, and nothing else changes.
pub proof fn law_inode_goes_to_the_block_in_use(
    v: Vol,
    p: Pool,
    isz: u16,
    ag: u32,
    hdr: AgHeader,
    b: Seq<u8>,
    slots: int,
    k: int,
)
    requires
        0 < isz <= v.bs,
        slots * isz <= v.bs < slots * isz + isz,
        fs::header_of(v, p.t, ag) == Ok::<AgHeader, FsError>(hdr),
        hdr.ino_hint != 0,
        vol::rd(v, p.t, fmt::addr_of(ag, hdr.ino_hint)) == Ok::<Seq<u8>, FsError>(b),
        0 <= k < slots,
        forall|x: int| k * isz <= x < k * isz + isz ==> #[trigger] b[x] == 0,
        forall|j: int| 0 <= j < k ==> !#[trigger] allocator::slot_free(b, isz as int, j),
        hdr.ino_hint * slots + k <= u32::MAX,
    ensures
        allocator::inode_allocated(v, p, isz, ag) == (
            p,
            Ok::<u64, FsError>((ag * 0x1_0000_0000 + hdr.ino_hint * slots + k) as u64),
        ),
{
    vstd::arithmetic::div_mod::lemma_fundamental_div_mod_converse(
        v.bs as int,
        isz as int,
        slots,
        v.bs - slots * isz,
    );
    lemma_slot_taken(b, isz as int, 0, slots, k);
}

/// Where there is no such block, one is allocated and the inode gets its first
/// slot.
pub proof fn law_new_inode_block_gives_its_first_slot(
    v: Vol,
    p: Pool,
    isz: u16,
    ag: u32,
    hdr: AgHeader,
    slots: int,
)
    requires
        v.bs >= 512,
        0 < isz <= v.bs,
        slots * isz <= v.bs < slots * isz + isz,
        fs::header_of(v, p.t, ag) == Ok::<AgHeader, FsError>(hdr),
        hdr.ino_hint == 0,
        allocator::inode_allocated(v, p, isz, ag).1 is Ok,
    ensures
        ({
            let blk = allocator::allocated(v, p, ag, 1).1;
            let (p1, r) = allocator::inode_allocated(v, p, isz, ag);
            &&& blk is Ok
            &&& r->Ok_0 == ag * 0x1_0000_0000 + blk->Ok_0 % 0x1_0000_0000 * slots
        }),
{
    vstd::arithmetic::div_mod::lemma_fundamental_div_mod_converse(
        v.bs as int,
        isz as int,
        slots,
        v.bs - slots * isz,
    );
    let (p1, r1) = allocator::allocated(v, p, ag, 1);
    let blk = r1->Ok_0;
    fmt::law_address_halves(0, 0, blk);
    let local = fmt::addr_local(blk) as int;
    assert(local * slots >= 0) by (nonlinear_arith)
        requires
            local >= 0,
            slots >= 0,
    ;
    assert(slots >= 0) by (nonlinear_arith)
        requires
            v.bs < slots * isz + isz,
            isz > 0,
    ;
}

/// A block of inodes stays in use as long as anything is left in it: releasing
/// one of its slots then changes no counter, clears the slot and nothing else of
/// the block. Once nothing is left the block is freed.
#[verifier::rlimit(40)]
#[verifier::spinoff_prover]
pub proof fn law_inode_block_stays_until_empty(v: Vol, p: Pool, isz: u16, ino: u64, b: Seq<u8>)
    requires
        0 < isz <= v.bs,
        allocator::inode_freed(v, p, isz, ino).1 is Ok,
        vol::rd(v, p.t, slot_block(v.bs, isz, fmt::addr_ag(ino), fmt::addr_local(ino))) == Ok::<
            Seq<u8>,
            FsError,
        >(b),
    ensures
        ({
            let blk = slot_block(v.bs, isz, fmt::addr_ag(ino), fmt::addr_local(ino));
            let k = slot_index(v.bs, isz, fmt::addr_local(ino));
            let p1 = allocator::inode_freed(v, p, isz, ino).0;
            let rest = exists|x: int|
                0 <= x < b.len() && !(k * isz <= x < k * isz + isz) && #[trigger] b[x] != 0;
            let cleared = Seq::new(
                b.len(),
                |x: int| if k * isz <= x < k * isz + isz { 0u8 } else { b[x] },
            );
            let f = allocator::freed(v, Pool { t: p.t.insert(blk, cleared), ..p }, blk, 1);
            &&& rest ==> p1.free == p.free && p1.rsvd == p.rsvd && p1.full == p.full
            &&& !rest ==> f.1 is Ok && p1.free == f.0.free && p1.rsvd == f.0.rsvd && p1.full
                == f.0.full
        }),
{
    let blk = slot_block(v.bs, isz, fmt::addr_ag(ino), fmt::addr_local(ino));
    let k = slot_index(v.bs, isz, fmt::addr_local(ino));
    let cleared = Seq::new(
        b.len(),
        |x: int| if k * isz <= x < k * isz + isz { 0u8 } else { b[x] },
    );
    let b1 = fmt::splice(b, k * isz, fmt::zeros(isz as nat));
    assert(b1 =~= cleared);
    if exists|x: int| 0 <= x < b.len() && !(k * isz <= x < k * isz + isz) && #[trigger] b[x] != 0 {
        let x = choose|x: int|
            0 <= x < b.len() && !(k * isz <= x < k * isz + isz) && #[trigger] b[x] != 0;
        assert(b1[x] != 0);
        assert(!fmt::zero_bytes(b1, 0, b1.len() as int));
    } else {
        assert forall|x: int| 0 <= x < b1.len() implies #[trigger] b1[x] == 0 by {
            if !(k * isz <= x < k * isz + isz) {
                assert(b[x] == 0);
            }
        }
        assert(fmt::zero_bytes(b1, 0, b1.len() as int));
    }
}

} // verus!
