//! The allocation tables of a new volume and of a new group: they are sound,
//! so what holds of allocation on sound tables holds from the start.

use crate::error::FsError;
use crate::fmt::{ALLOC_MAGIC, CELL_FREE, CELL_REFINED, CELL_RSVD};
use crate::header::AgHeader;
use crate::mkfs::Plan;
use crate::vol::Vol;
use vstd::prelude::*;

use crate::allocator;
use crate::fmt;
use crate::fs;
use crate::header;
use crate::import;
use crate::mkfs;
use crate::record;
use crate::resize;
use crate::roottable;
use crate::tables;
use crate::vol;

verus! {

// --- a root table on the volume -----------------------------------------------

/// The blocks of the root table that `hdr` places hold `tbl`.
pub open spec fn shows(v: Vol, hdr: AgHeader, tbl: Seq<u8>) -> bool {
    forall|j: int|
        0 <= j < header::table_blocks(hdr.length, v.bs) ==> #[trigger] vol::rd0(
            v,
            fmt::addr_of(hdr.ag_num, (hdr.alloc_root + j) as u32),
        ) == Ok::<Seq<u8>, FsError>(tbl.subrange(j * v.bs, j * v.bs + v.bs))
}

/// The state and the reference of a cell, from the bytes of the table.
pub proof fn lemma_shows(v: Vol, hdr: AgHeader, tbl: Seq<u8>)
    requires
        v.bs >= 512,
        hdr.length > 0,
        hdr.alloc_root + header::table_blocks(hdr.length, v.bs) <= u32::MAX,
        tbl.len() == header::table_blocks(hdr.length, v.bs) * v.bs,
        shows(v, hdr, tbl),
    ensures
        forall|c: int|
            0 <= c < allocator::cells_in(hdr) ==> #[trigger] roottable::cell_of(
                v,
                Map::empty(),
                hdr,
                c,
            ) == Ok::<u8, FsError>(fmt::cell_at(tbl, c)),
        forall|c: int|
            0 <= c < allocator::cells_in(hdr) ==> #[trigger] roottable::cell_ref(
                v,
                Map::empty(),
                hdr,
                c,
            ) == Ok::<(u32, u16), FsError>(
                (
                    fmt::u32_at(tbl, roottable::cell_ref_off(hdr, c)),
                    fmt::u16_at(tbl, roottable::cell_ref_off(hdr, c) + 4),
                ),
            ),
{
    let t = Map::<u64, Seq<u8>>::empty();
    let bs = v.bs as int;
    resize::lemma_table_small(hdr.length, v.bs);
    assert forall|o: int| 0 <= o < tables::root_bytes(hdr) implies #[trigger] roottable::rt_get(
        v,
        t,
        hdr,
        o,
    ) == Ok::<u8, FsError>(tbl[o]) by {
        tables::lemma_root_block(hdr, v.bs, o);
        let j = o / bs;
        vstd::arithmetic::div_mod::lemma_fundamental_div_mod(o, bs);
        vstd::arithmetic::div_mod::lemma_div_pos_is_pos(o, bs);
        assert(vol::rd0(v, fmt::addr_of(hdr.ag_num, (hdr.alloc_root + j) as u32)) == Ok::<
            Seq<u8>,
            FsError,
        >(tbl.subrange(j * v.bs, j * v.bs + v.bs)));
        assert(j * bs + bs <= tbl.len() && j * bs == bs * j) by (nonlinear_arith)
            requires
                tbl.len() == header::table_blocks(hdr.length, v.bs) * bs,
                j + 1 <= header::table_blocks(hdr.length, v.bs),
                bs > 0,
        ;
        assert(tbl.subrange(j * bs, j * bs + bs)[o % bs] == tbl[o]);
    }
    assert forall|c: int| 0 <= c < allocator::cells_in(hdr) implies #[trigger] roottable::cell_of(
        v,
        t,
        hdr,
        c,
    ) == Ok::<u8, FsError>(fmt::cell_at(tbl, c)) by {
        tables::lemma_cell_offs(hdr, c);
        assert(roottable::rt_get(v, t, hdr, c / 4) == Ok::<u8, FsError>(tbl[c / 4]));
    }
    assert forall|c: int| 0 <= c < allocator::cells_in(hdr) implies #[trigger] roottable::cell_ref(
        v,
        t,
        hdr,
        c,
    ) == Ok::<(u32, u16), FsError>(
        (
            fmt::u32_at(tbl, roottable::cell_ref_off(hdr, c)),
            fmt::u16_at(tbl, roottable::cell_ref_off(hdr, c) + 4),
        ),
    ) by {
        tables::lemma_cell_offs(hdr, c);
        let off = roottable::cell_ref_off(hdr, c);
        let s = tbl.subrange(off, off + 6);
        assert forall|o: int| off <= o < off + 6 implies #[trigger] roottable::rt_get(v, t, hdr, o)
            == Ok::<u8, FsError>(s[o - off]) by {
            assert(s[o - off] == tbl[o]);
        }
        tables::lemma_gets_known(v, t, hdr, off, 6, s);
        assert(s.take(6) =~= s);
    }
}

/// A header block reads as its header.
pub proof fn lemma_header_reads(v: Vol, hdr: AgHeader)
    requires
        v.bs >= 512,
        vol::rd0(v, fmt::addr_of(hdr.ag_num, fs::header_local(hdr.ag_num))) == Ok::<
            Seq<u8>,
            FsError,
        >(fs::header_block(hdr, v.bs)),
    ensures
        fs::header_of(v, Map::empty(), hdr.ag_num) == Ok::<AgHeader, FsError>(hdr),
{
    let b = fs::header_block(hdr, v.bs);
    let rest = fmt::zeros((v.bs - 64) as nat);
    header::law_header_round_trip(hdr, rest);
    assert(b =~= header::hdr_image(hdr) + rest);
}

/// The root table read whole.
pub proof fn lemma_table_read(v: Vol, hdr: AgHeader, tbl: Seq<u8>, i: int)
    requires
        v.bs > 0,
        hdr.alloc_root + header::table_blocks(hdr.length, v.bs) <= u32::MAX,
        tbl.len() == header::table_blocks(hdr.length, v.bs) * v.bs,
        shows(v, hdr, tbl),
        0 <= i <= header::table_blocks(hdr.length, v.bs),
    ensures
        import::run_read(
            v,
            hdr.ag_num,
            hdr.alloc_root,
            tbl.take(i * v.bs),
            i,
            header::table_blocks(hdr.length, v.bs),
        ) == Ok::<Seq<u8>, FsError>(tbl),
    decreases header::table_blocks(hdr.length, v.bs) - i,
{
    let n = header::table_blocks(hdr.length, v.bs);
    if i < n {
        lemma_table_read(v, hdr, tbl, i + 1);
        assert(vol::rd0(v, fmt::addr_of(hdr.ag_num, (hdr.alloc_root + i) as u32)) == Ok::<
            Seq<u8>,
            FsError,
        >(tbl.subrange(i * v.bs, i * v.bs + v.bs)));
        assert(0 <= i * v.bs && (i + 1) * v.bs == i * v.bs + v.bs && (i + 1) * v.bs <= n * v.bs)
            by (nonlinear_arith)
            requires
                0 <= i,
                i + 1 <= n,
                v.bs > 0,
        ;
        assert(tbl.take(i * v.bs) + tbl.subrange(i * v.bs, i * v.bs + v.bs) =~= tbl.take(
            (i + 1) * v.bs,
        ));
    } else {
        assert(tbl.take(n * v.bs) =~= tbl);
    }
}

// --- a group that holds nothing -----------------------------------------------

/// The cells of the table of a new group: the first ones reserved, perhaps the
/// last one, and the others free.
pub proof fn lemma_base_table(len: u32, bs: u32, used: int)
    requires
        len > 0,
        bs >= 512,
        0 < used <= len,
    ensures
        resize::base_table(len, bs, used).len() == header::table_blocks(len, bs) * bs,
        forall|c: int|
            0 <= c < header::cell_count(len) ==> #[trigger] fmt::cell_at(
                resize::base_table(len, bs, used),
                c,
            ) == if c < fmt::ceil_div(used, 256) || (c == header::cell_count(len) - 1 && len % 256
                != 0) {
                CELL_RSVD
            } else {
                CELL_FREE
            },
        fmt::ceil_div(used, 256) <= header::cell_count(len),
{
    resize::lemma_table_small(len, bs);
    fmt::lemma_ceil_div(used, 256);
    fmt::lemma_ceil_div(len as int, 256);
    let cells = header::cell_count(len);
    let head = fmt::ceil_div(used, 256);
    let n = header::table_blocks(len, bs) * bs;
    let z = fmt::zeros(n as nat);
    let t = resize::cells_filled(z, 0, head, CELL_RSVD);
    assert forall|c: int| 0 <= c < cells implies #[trigger] fmt::cell_at(
        resize::base_table(len, bs, used),
        c,
    ) == if c < head || (c == cells - 1 && len % 256 != 0) {
        CELL_RSVD
    } else {
        CELL_FREE
    } by {
        resize::lemma_cells_filled(z, 0, head, CELL_RSVD, c);
        resize::lemma_cells_filled(z, 0, head, CELL_RSVD, cells - 1);
        assert(z[c / 4] == 0 && z[(cells - 1) / 4] == 0);
        fmt::law_cell_put(t, cells - 1, c, CELL_RSVD);
    }
    resize::lemma_cells_filled(z, 0, head, CELL_RSVD, 0);
}

/// A new group has sound tables.
pub proof fn lemma_new_group_sound(v: Vol, ag: u32, len: u32)
    requires
        v.bs >= 512,
        ag > 0,
        len > 1,
        shows(
            v,
            resize::new_header(ag, len, v.bs),
            resize::base_table(len, v.bs, 1 + header::table_blocks(len, v.bs)),
        ),
    ensures
        tables::sound(v, Map::empty(), resize::new_header(ag, len, v.bs)),
{
    let t = Map::<u64, Seq<u8>>::empty();
    let hdr = resize::new_header(ag, len, v.bs);
    let used = 1 + header::table_blocks(len, v.bs);
    let tbl = resize::base_table(len, v.bs, used);
    resize::lemma_table_small(len, v.bs);
    fmt::lemma_ceil_div(used, 256);
    lemma_base_table(len, v.bs, used);
    lemma_shows(v, hdr, tbl);
    assert forall|l: u32|
        !(#[trigger] tables::off_root(hdr, v.bs, l)) && l as int / 256 < allocator::cells_in(
            hdr,
        ) implies roottable::cell_of(v, t, hdr, l as int / 256) == Ok::<u8, FsError>(CELL_RSVD) by {
        assert(l < used);
        assert(l as int / 256 < fmt::ceil_div(used, 256));
    }
    assert forall|c: int, i: int| !(#[trigger] tables::holds(v, t, hdr, c, i)) by {
        if 0 <= c < allocator::cells_in(hdr) {
            assert(roottable::cell_of(v, t, hdr, c) == Ok::<u8, FsError>(fmt::cell_at(tbl, c)));
        }
    }
}

// --- the first group of a new volume ------------------------------------------

/// The cells of the first group's table, and the reference of its inode cell.
pub proof fn lemma_first_table(p: Plan, bs: u32)
    requires
        bs >= 2048,
        p.wf(bs),
    ensures
        mkfs::first_table(p, bs).len() == p.table * bs,
        forall|c: int|
            0 <= c < p.cells ==> #[trigger] fmt::cell_at(mkfs::first_table(p, bs), c) == if c
                <= p.head || c == p.cells - 1 {
                CELL_RSVD
            } else if c == p.head + 1 {
                CELL_REFINED
            } else {
                CELL_FREE
            },
        fmt::u32_at(
            mkfs::first_table(p, bs),
            header::state_bytes(p.cells as int) + 6 * (p.head + 1),
        ) == p.arena(),
        fmt::u16_at(
            mkfs::first_table(p, bs),
            header::state_bytes(p.cells as int) + 6 * (p.head + 1) + 4,
        ) == 0,
{
    resize::lemma_table_small(p.length, bs);
    let cells = p.cells as int;
    let n = p.table * bs;
    let z = fmt::zeros(n as nat);
    let a = resize::cells_filled(z, 0, p.head + 1, CELL_RSVD);
    let b = fmt::cell_put(a, p.head + 1, CELL_REFINED);
    let c1 = fmt::cell_put(b, cells - 1, CELL_RSVD);
    let off = header::state_bytes(cells) + 6 * (p.head + 1);
    let r = roottable::ref_bytes((p.arena(), 0));
    let tbl = mkfs::first_table(p, bs);
    fmt::lemma_ceil_div(cells, 4);
    resize::lemma_cells_filled(z, 0, p.head + 1, CELL_RSVD, 0);
    assert(r.len() == 6);
    assert forall|c: int| 0 <= c < p.cells implies #[trigger] fmt::cell_at(tbl, c) == if c
        <= p.head || c == p.cells - 1 {
        CELL_RSVD
    } else if c == p.head + 1 {
        CELL_REFINED
    } else {
        CELL_FREE
    } by {
        resize::lemma_cells_filled(z, 0, p.head + 1, CELL_RSVD, c);
        assert(z[c / 4] == 0);
        fmt::law_cell_put(a, p.head + 1, c, CELL_REFINED);
        fmt::law_cell_put(b, cells - 1, c, CELL_RSVD);
        assert(tbl[c / 4] == c1[c / 4]);
    }
    let q0 = fmt::be32(p.arena());
    let q1 = fmt::be16(0);
    assert(tbl[off] == q0[0] && tbl[off + 1] == q0[1] && tbl[off + 2] == q0[2] && tbl[off + 3]
        == q0[3] && tbl[off + 4] == q1[0] && tbl[off + 5] == q1[1]);
    fmt::lemma_u32_of(tbl, off, p.arena());
    fmt::lemma_u16_of(tbl, off + 4, 0);
}

/// The records of the first arena block.
pub proof fn lemma_arena_block(p: Plan, bs: u32)
    requires
        bs >= 2048,
    ensures
        ({
            let b = mkfs::arena_block(p, bs);
            &&& b.len() == bs
            &&& fmt::has_magic(b, ALLOC_MAGIC)
            &&& fmt::csum_ok(b)
            &&& fmt::u32_at(b, 16) == 7
            &&& b.subrange(128, 256) == mkfs::chain_record((p.arena(), 1))
            &&& b.subrange(256, 384) == mkfs::chain_record((p.arena(), 2))
            &&& b.subrange(384, 512) == mkfs::slot_record(p.kernel > 0)
        }),
{
    let z128 = fmt::zeros(record::REC_SIZE as nat);
    tables::lemma_rec_fields(z128, 0, CELL_REFINED, (p.arena(), 1));
    let y = fmt::cell_put(z128, 0, CELL_REFINED);
    tables::lemma_rec_fields(y, 0, CELL_REFINED, (p.arena(), 1));
    tables::lemma_rec_fields(y, 0, CELL_REFINED, (p.arena(), 2));
    let r1 = mkfs::chain_record((p.arena(), 1));
    let r2 = mkfs::chain_record((p.arena(), 2));
    let r3 = mkfs::slot_record(p.kernel > 0);
    assert(r1.len() == 128 && r2.len() == 128 && r3.len() == 128);
    let b0 = fmt::splice(fmt::zeros(bs as nat), 0, ALLOC_MAGIC@);
    let b1 = fmt::splice(b0, 16, fmt::be32(7));
    let b2 = fmt::splice(b1, 128, r1);
    let b3 = fmt::splice(b2, 256, r2);
    let b4 = fmt::splice(b3, 384, r3);
    let b = mkfs::arena_block(p, bs);
    fmt::lemma_sealed(b4);
    assert(b4.len() == bs);
    assert(b[0] == b4[0] && b[1] == b4[1] && b[2] == b4[2] && b[3] == b4[3]);
    assert(b4[0] == b0[0] && b4[1] == b0[1] && b4[2] == b0[2] && b4[3] == b0[3]);
    assert(b[16] == b4[16] && b[17] == b4[17] && b[18] == b4[18] && b[19] == b4[19]);
    fmt::lemma_u32_of(b, 16, 7);
    assert forall|i: int| 128 <= i < 512 implies #[trigger] b[i] == b4[i] by {}
    assert(b.subrange(128, 256) =~= r1);
    assert(b.subrange(256, 384) =~= r2);
    assert(b.subrange(384, 512) =~= r3);
}

/// The first group of a new volume has sound tables.
pub proof fn lemma_first_group_sound(v: Vol, p: Plan)
    requires
        v.bs >= 2048,
        p.wf(v.bs),
        shows(v, mkfs::first_header(p), mkfs::first_table(p, v.bs)),
        vol::rd0(v, fmt::addr_of(0, p.arena())) == Ok::<Seq<u8>, FsError>(
            mkfs::arena_block(p, v.bs),
        ),
    ensures
        tables::sound(v, Map::empty(), mkfs::first_header(p)),
{
    let t = Map::<u64, Seq<u8>>::empty();
    let hdr = mkfs::first_header(p);
    let tbl = mkfs::first_table(p, v.bs);
    let a = p.arena();
    resize::lemma_table_small(p.length, v.bs);
    lemma_first_table(p, v.bs);
    lemma_shows(v, hdr, tbl);
    lemma_arena_block(p, v.bs);
    assert(a as int / 256 == p.head);
    assert forall|l: u32|
        !(#[trigger] tables::off_root(hdr, v.bs, l)) && l as int / 256 < allocator::cells_in(
            hdr,
        ) implies roottable::cell_of(v, t, hdr, l as int / 256) == Ok::<u8, FsError>(CELL_RSVD) by {
        assert(l < p.next);
        assert(l as int / 256 <= p.head);
    }
    let z128 = fmt::zeros(record::REC_SIZE as nat);
    let y = fmt::cell_put(z128, 0, CELL_REFINED);
    tables::lemma_rec_fields(z128, 0, CELL_REFINED, (a, 1));
    tables::lemma_rec_fields(y, 0, CELL_REFINED, (a, 1));
    let r1 = mkfs::chain_record((a, 1));
    let c0 = p.head + 1;
    assert(roottable::rec_off_of(0) == 128 && roottable::rec_off_of(1) == 256);
    assert(roottable::record_of(v, t, 0, (a, 0)) == Ok::<Seq<u8>, FsError>(r1));
    assert(roottable::cell_ref(v, t, hdr, c0) == Ok::<(u32, u16), FsError>((a, 0)));
    assert(tables::cell_rec(v, t, hdr, c0) == r1);
    reveal_with_fuel(record::bit_on, 3);
    assert(tables::off_root(hdr, v.bs, a));
    assert(tables::good_ref(v, t, hdr, (a, 0)));
    assert(tables::good_ref(v, t, hdr, (a, 1)));
    assert forall|c: int, i: int| #[trigger] tables::holds(v, t, hdr, c, i) implies c == c0 && (i
        == 16 || i == 0) && tables::held(v, t, hdr, c, i) == if i == 16 {
        (a, 0u16)
    } else {
        (a, 1u16)
    } by {
        assert(roottable::cell_of(v, t, hdr, c) == Ok::<u8, FsError>(fmt::cell_at(tbl, c)));
        if i < 16 {
            assert(fmt::cell_at(r1, i) == fmt::cell_at(y, i));
            assert(z128[i / 4] == 0);
            assert(fmt::cell_at(z128, i) == CELL_FREE);
        }
    }
}

} // verus!
