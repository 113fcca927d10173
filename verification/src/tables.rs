//! When the allocation tables of a group are sound: every cell can be read,
//! every refined one has a record of its own, and no record is shared. The
//! lemmas say what each write to the tables keeps.

use crate::allocator::St;
use crate::error::FsError;
use crate::fmt::{ALLOC_MAGIC, CELL_FREE, CELL_FULL, CELL_REFINED, CELL_RSVD};
use crate::header::AgHeader;
use crate::vol::Vol;
use vstd::prelude::*;

use crate::allocator;
use crate::fmt;
use crate::fs;
use crate::header;
use crate::record;
use crate::roottable;
use crate::vol;

verus! {

// --- the root table -----------------------------------------------------------

/// Bytes of the root table.
pub open spec fn root_bytes(hdr: AgHeader) -> int {
    header::state_bytes(header::cell_count(hdr.length)) + 6 * header::cell_count(hdr.length)
}

/// Block `local` of the group holds a part of the root table.
pub open spec fn in_root(hdr: AgHeader, bs: u32, local: int) -> bool {
    hdr.alloc_root <= local < hdr.alloc_root + header::table_blocks(hdr.length, bs)
}

/// Block `local` of the group holds neither its header nor a part of its root
/// table.
pub open spec fn off_root(hdr: AgHeader, bs: u32, local: u32) -> bool {
    !in_root(hdr, bs, local as int) && local != fs::header_local(hdr.ag_num)
}

/// The root table reads the same in both.
pub open spec fn root_same(v: Vol, t: Map<u64, Seq<u8>>, t1: Map<u64, Seq<u8>>, hdr: AgHeader) -> bool {
    forall|local: u32|
        #![trigger fmt::addr_of(hdr.ag_num, local)]
        in_root(hdr, v.bs, local as int) ==> vol::rd(v, t1, fmt::addr_of(hdr.ag_num, local))
            == vol::rd(v, t, fmt::addr_of(hdr.ag_num, local))
}

/// Everything but the root table reads the same in both.
pub open spec fn rest_same(v: Vol, t: Map<u64, Seq<u8>>, t1: Map<u64, Seq<u8>>, hdr: AgHeader) -> bool {
    forall|local: u32|
        #![trigger fmt::addr_of(hdr.ag_num, local)]
        !in_root(hdr, v.bs, local as int) ==> vol::rd(v, t1, fmt::addr_of(hdr.ag_num, local))
            == vol::rd(v, t, fmt::addr_of(hdr.ag_num, local))
}

/// Blocks of a group with the same address are the same block.
pub proof fn lemma_addr(ag: u32, a: u32, b: u32)
    ensures
        fmt::addr_of(ag, a) == fmt::addr_of(ag, b) ==> a == b,
{
    fmt::law_address_halves(ag, a, 0);
    fmt::law_address_halves(ag, b, 0);
}

/// A byte of the root table lies in one of its blocks.
pub proof fn lemma_root_block(hdr: AgHeader, bs: u32, off: int)
    requires
        bs > 0,
        0 <= off < root_bytes(hdr),
    ensures
        in_root(hdr, bs, hdr.alloc_root + off / bs as int),
{
    let n = root_bytes(hdr);
    let k = header::table_blocks(hdr.length, bs);
    let b = bs as int;
    fmt::lemma_ceil_div(n, b);
    vstd::arithmetic::div_mod::lemma_fundamental_div_mod(off, b);
    vstd::arithmetic::div_mod::lemma_div_pos_is_pos(off, b);
    assert(off / b < k) by (nonlinear_arith)
        requires
            off < n,
            n <= k * b,
            off == b * (off / b) + off % b,
            off % b >= 0,
            b > 0,
    ;
}

/// Where the parts of the root table lie.
pub proof fn lemma_cell_offs(hdr: AgHeader, c: int)
    requires
        0 <= c < allocator::cells_in(hdr),
    ensures
        0 <= c / 4 < header::state_bytes(allocator::cells_in(hdr)),
        header::state_bytes(allocator::cells_in(hdr)) <= roottable::cell_ref_off(hdr, c),
        roottable::cell_ref_off(hdr, c) + 6 <= root_bytes(hdr),
{
    fmt::lemma_ceil_div(allocator::cells_in(hdr), 4);
}

/// Equal bytes read equal.
proof fn lemma_gets_same(
    v: Vol,
    t: Map<u64, Seq<u8>>,
    t1: Map<u64, Seq<u8>>,
    hdr: AgHeader,
    off: int,
    n: int,
)
    requires
        forall|o: int|
            off <= o < off + n ==> #[trigger] roottable::rt_get(v, t1, hdr, o) == roottable::rt_get(
                v,
                t,
                hdr,
                o,
            ),
    ensures
        roottable::rt_gets(v, t1, hdr, off, n) == roottable::rt_gets(v, t, hdr, off, n),
    decreases n,
{
    if n > 0 {
        lemma_gets_same(v, t, t1, hdr, off, n - 1);
        assert(roottable::rt_get(v, t1, hdr, off + n - 1) == roottable::rt_get(
            v,
            t,
            hdr,
            off + n - 1,
        ));
    }
}

/// Bytes that are known read as such.
pub proof fn lemma_gets_known(v: Vol, t: Map<u64, Seq<u8>>, hdr: AgHeader, off: int, n: int, s: Seq<u8>)
    requires
        0 <= n <= s.len(),
        forall|o: int|
            off <= o < off + n ==> #[trigger] roottable::rt_get(v, t, hdr, o) == Ok::<u8, FsError>(
                s[o - off],
            ),
    ensures
        roottable::rt_gets(v, t, hdr, off, n) == Ok::<Seq<u8>, FsError>(s.take(n)),
    decreases n,
{
    if n > 0 {
        lemma_gets_known(v, t, hdr, off, n - 1, s);
        assert(roottable::rt_get(v, t, hdr, off + n - 1) == Ok::<u8, FsError>(s[n - 1]));
        assert(s.take(n - 1).push(s[n - 1]) =~= s.take(n));
    } else {
        assert(s.take(0) =~= Seq::empty());
    }
}

/// A root table that reads the same has the same cells.
pub proof fn lemma_root_same(v: Vol, t: Map<u64, Seq<u8>>, t1: Map<u64, Seq<u8>>, hdr: AgHeader)
    requires
        v.bs > 0,
        root_same(v, t, t1, hdr),
    ensures
        forall|c: int|
            0 <= c < allocator::cells_in(hdr) ==> #[trigger] roottable::cell_of(v, t1, hdr, c)
                == roottable::cell_of(v, t, hdr, c),
        forall|c: int|
            0 <= c < allocator::cells_in(hdr) ==> #[trigger] roottable::cell_ref(v, t1, hdr, c)
                == roottable::cell_ref(v, t, hdr, c),
{
    assert forall|o: int| 0 <= o < root_bytes(hdr) implies #[trigger] roottable::rt_get(
        v,
        t1,
        hdr,
        o,
    ) == roottable::rt_get(v, t, hdr, o) by {
        lemma_root_block(hdr, v.bs, o);
        let local = hdr.alloc_root + o / v.bs as int;
        if local <= u32::MAX {
            assert(fmt::addr_of(hdr.ag_num, local as u32) == roottable::rt_blk(
                hdr,
                v.bs,
                o,
            )->Some_0);
        }
    }
    assert forall|c: int| 0 <= c < allocator::cells_in(hdr) implies #[trigger] roottable::cell_of(
        v,
        t1,
        hdr,
        c,
    ) == roottable::cell_of(v, t, hdr, c) by {
        lemma_cell_offs(hdr, c);
        assert(roottable::rt_get(v, t1, hdr, c / 4) == roottable::rt_get(v, t, hdr, c / 4));
    }
    assert forall|c: int| 0 <= c < allocator::cells_in(hdr) implies #[trigger] roottable::cell_ref(
        v,
        t1,
        hdr,
        c,
    ) == roottable::cell_ref(v, t, hdr, c) by {
        lemma_cell_offs(hdr, c);
        lemma_gets_same(v, t, t1, hdr, roottable::cell_ref_off(hdr, c), 6);
    }
}

/// Replacing a byte of the root table: that byte reads back, and every other
/// block and byte is as it was.
proof fn lemma_rt_put(v: Vol, t: Map<u64, Seq<u8>>, hdr: AgHeader, off: int, x: u8)
    requires
        v.bs > 0,
        vol::txn_ok(t, v.bs),
        0 <= off < root_bytes(hdr),
        roottable::rt_put(v, t, hdr, off, x).1 is Ok,
    ensures
        vol::txn_ok(roottable::rt_put(v, t, hdr, off, x).0, v.bs),
        rest_same(v, t, roottable::rt_put(v, t, hdr, off, x).0, hdr),
        forall|o: int|
            0 <= o ==> #[trigger] roottable::rt_get(
                v,
                roottable::rt_put(v, t, hdr, off, x).0,
                hdr,
                o,
            ) == if o == off {
                Ok::<u8, FsError>(x)
            } else {
                roottable::rt_get(v, t, hdr, o)
            },
{
    let t1 = roottable::rt_put(v, t, hdr, off, x).0;
    let (blk, p, b) = roottable::rt_at(v, t, hdr, off)->Ok_0;
    let bs = v.bs as int;
    let local = (hdr.alloc_root + off / bs) as u32;
    vol::lemma_rd_len(v, t, blk);
    vstd::arithmetic::div_mod::lemma_fundamental_div_mod(off, bs);
    vstd::arithmetic::div_mod::lemma_div_pos_is_pos(off, bs);
    lemma_root_block(hdr, v.bs, off);
    assert forall|l: u32|
        #![trigger fmt::addr_of(hdr.ag_num, l)]
        !in_root(hdr, v.bs, l as int) implies vol::rd(v, t1, fmt::addr_of(hdr.ag_num, l))
        == vol::rd(v, t, fmt::addr_of(hdr.ag_num, l)) by {
        lemma_addr(hdr.ag_num, local, l);
    }
    assert forall|o: int| 0 <= o implies #[trigger] roottable::rt_get(v, t1, hdr, o) == if o == off {
        Ok::<u8, FsError>(x)
    } else {
        roottable::rt_get(v, t, hdr, o)
    } by {
        vstd::arithmetic::div_mod::lemma_fundamental_div_mod(o, bs);
        vstd::arithmetic::div_mod::lemma_div_pos_is_pos(o, bs);
        let l = hdr.alloc_root + o / bs;
        if l <= u32::MAX {
            lemma_addr(hdr.ag_num, local, l as u32);
            if l == local {
                assert(o != off ==> o % bs != off % bs);
                assert(0 <= o % bs < bs);
            }
        }
    }
}

/// Setting a cell's state: that cell reads back, and every other cell, every
/// reference and every other block is as it was.
pub proof fn lemma_cell_to(v: Vol, t: Map<u64, Seq<u8>>, hdr: AgHeader, c: int, st: u8)
    requires
        v.bs > 0,
        vol::txn_ok(t, v.bs),
        0 <= c < allocator::cells_in(hdr),
        st < 4,
        roottable::cell_to(v, t, hdr, c, st).1 is Ok,
    ensures
        vol::txn_ok(roottable::cell_to(v, t, hdr, c, st).0, v.bs),
        rest_same(v, t, roottable::cell_to(v, t, hdr, c, st).0, hdr),
        forall|d: int|
            0 <= d < allocator::cells_in(hdr) ==> #[trigger] roottable::cell_of(
                v,
                roottable::cell_to(v, t, hdr, c, st).0,
                hdr,
                d,
            ) == if d == c {
                Ok::<u8, FsError>(st)
            } else {
                roottable::cell_of(v, t, hdr, d)
            },
        forall|d: int|
            0 <= d < allocator::cells_in(hdr) ==> #[trigger] roottable::cell_ref(
                v,
                roottable::cell_to(v, t, hdr, c, st).0,
                hdr,
                d,
            ) == roottable::cell_ref(v, t, hdr, d),
{
    let t1 = roottable::cell_to(v, t, hdr, c, st).0;
    let old_byte = roottable::rt_get(v, t, hdr, c / 4)->Ok_0;
    let x = fmt::with_quarter(old_byte, c % 4, st);
    lemma_cell_offs(hdr, c);
    assert(roottable::rt_put(v, t, hdr, c / 4, x) == (t1, Ok::<(), FsError>(())));
    lemma_rt_put(v, t, hdr, c / 4, x);
    assert forall|d: int| 0 <= d < allocator::cells_in(hdr) implies #[trigger] roottable::cell_of(
        v,
        t1,
        hdr,
        d,
    ) == if d == c {
        Ok::<u8, FsError>(st)
    } else {
        roottable::cell_of(v, t, hdr, d)
    } by {
        lemma_cell_offs(hdr, d);
        assert(roottable::rt_get(v, t1, hdr, d / 4) == if d / 4 == c / 4 {
            Ok::<u8, FsError>(x)
        } else {
            roottable::rt_get(v, t, hdr, d / 4)
        });
        if d / 4 == c / 4 {
            let s = seq![old_byte];
            fmt::law_cell_put(s, c % 4, d % 4, st);
            assert(fmt::cell_put(s, c % 4, st)[0] == x);
        }
    }
    assert forall|d: int| 0 <= d < allocator::cells_in(hdr) implies #[trigger] roottable::cell_ref(
        v,
        t1,
        hdr,
        d,
    ) == roottable::cell_ref(v, t, hdr, d) by {
        lemma_cell_offs(hdr, d);
        lemma_gets_same(v, t, t1, hdr, roottable::cell_ref_off(hdr, d), 6);
    }
}

/// Replacing bytes of the root table.
proof fn lemma_rt_puts(v: Vol, t: Map<u64, Seq<u8>>, hdr: AgHeader, off: int, xs: Seq<u8>)
    requires
        v.bs > 0,
        vol::txn_ok(t, v.bs),
        0 <= off,
        off + xs.len() <= root_bytes(hdr),
        roottable::rt_puts(v, t, hdr, off, xs).1 is Ok,
    ensures
        vol::txn_ok(roottable::rt_puts(v, t, hdr, off, xs).0, v.bs),
        rest_same(v, t, roottable::rt_puts(v, t, hdr, off, xs).0, hdr),
        forall|o: int|
            0 <= o ==> #[trigger] roottable::rt_get(
                v,
                roottable::rt_puts(v, t, hdr, off, xs).0,
                hdr,
                o,
            ) == if off <= o < off + xs.len() {
                Ok::<u8, FsError>(xs[o - off])
            } else {
                roottable::rt_get(v, t, hdr, o)
            },
    decreases xs.len(),
{
    if xs.len() > 0 {
        let t1 = roottable::rt_put(v, t, hdr, off, xs[0]).0;
        lemma_rt_put(v, t, hdr, off, xs[0]);
        lemma_rt_puts(v, t1, hdr, off + 1, xs.skip(1));
        let t2 = roottable::rt_puts(v, t, hdr, off, xs).0;
        assert(t2 == roottable::rt_puts(v, t1, hdr, off + 1, xs.skip(1)).0);
        assert forall|o: int| 0 <= o implies #[trigger] roottable::rt_get(v, t2, hdr, o) == if off
            <= o < off + xs.len() {
            Ok::<u8, FsError>(xs[o - off])
        } else {
            roottable::rt_get(v, t, hdr, o)
        } by {
            let mid = roottable::rt_get(v, t1, hdr, o);
            if off + 1 <= o < off + xs.len() {
                assert(xs.skip(1)[o - off - 1] == xs[o - off]);
            }
        }
    }
}

/// The reference that a cell was given is the one that is read, also where its bytes
/// lie in two blocks of the root table; every other reference, the state of every cell
/// and every other block are as they were.
pub proof fn law_cell_reference_reads_back(v: Vol, t: Map<u64, Seq<u8>>, hdr: AgHeader, c: int, r: (u32, u16))
    requires
        v.bs > 0,
        vol::txn_ok(t, v.bs),
        0 <= c < allocator::cells_in(hdr),
        roottable::cell_ref_to(v, t, hdr, c, r).1 is Ok,
    ensures
        vol::txn_ok(roottable::cell_ref_to(v, t, hdr, c, r).0, v.bs),
        rest_same(v, t, roottable::cell_ref_to(v, t, hdr, c, r).0, hdr),
        forall|d: int|
            0 <= d < allocator::cells_in(hdr) ==> #[trigger] roottable::cell_of(
                v,
                roottable::cell_ref_to(v, t, hdr, c, r).0,
                hdr,
                d,
            ) == roottable::cell_of(v, t, hdr, d),
        forall|d: int|
            0 <= d < allocator::cells_in(hdr) ==> #[trigger] roottable::cell_ref(
                v,
                roottable::cell_ref_to(v, t, hdr, c, r).0,
                hdr,
                d,
            ) == if d == c {
                Ok::<(u32, u16), FsError>(r)
            } else {
                roottable::cell_ref(v, t, hdr, d)
            },
{
    let t1 = roottable::cell_ref_to(v, t, hdr, c, r).0;
    let off = roottable::cell_ref_off(hdr, c);
    let xs = roottable::ref_bytes(r);
    lemma_cell_offs(hdr, c);
    lemma_rt_puts(v, t, hdr, off, xs);
    assert forall|d: int| 0 <= d < allocator::cells_in(hdr) implies #[trigger] roottable::cell_of(
        v,
        t1,
        hdr,
        d,
    ) == roottable::cell_of(v, t, hdr, d) by {
        lemma_cell_offs(hdr, d);
        assert(roottable::rt_get(v, t1, hdr, d / 4) == roottable::rt_get(v, t, hdr, d / 4));
    }
    assert forall|d: int| 0 <= d < allocator::cells_in(hdr) implies #[trigger] roottable::cell_ref(
        v,
        t1,
        hdr,
        d,
    ) == if d == c {
        Ok::<(u32, u16), FsError>(r)
    } else {
        roottable::cell_ref(v, t, hdr, d)
    } by {
        lemma_cell_offs(hdr, d);
        if d == c {
            lemma_gets_known(v, t1, hdr, off, 6, xs);
            assert(xs.take(6) =~= xs);
            fmt::lemma_u32_of(xs, 0, r.0);
            fmt::lemma_u16_of(xs, 4, r.1);
        } else {
            lemma_gets_same(v, t, t1, hdr, roottable::cell_ref_off(hdr, d), 6);
        }
    }
}

// --- table blocks -------------------------------------------------------------

/// The bitmap of the records in use of a table block.
pub open spec fn used_bits(v: Vol, t: Map<u64, Seq<u8>>, ag: u32, local: u32) -> int {
    fmt::u32_at(roottable::table_of(v, t, ag, local)->Ok_0, 16) as int
}

/// Every block of group `ag` but `local` reads the same in both.
pub open spec fn same_but(v: Vol, t: Map<u64, Seq<u8>>, t1: Map<u64, Seq<u8>>, ag: u32, local: u32) -> bool {
    forall|l: u32|
        #![trigger fmt::addr_of(ag, l)]
        l != local ==> vol::rd(v, t1, fmt::addr_of(ag, l)) == vol::rd(v, t, fmt::addr_of(ag, l))
}

/// A table block that is written reads back, its generation and checksum
/// apart.
proof fn lemma_table_to(v: Vol, t: Map<u64, Seq<u8>>, ag: u32, local: u32, b: Seq<u8>)
    requires
        vol::txn_ok(t, v.bs),
        v.bs >= 128,
        b.len() == v.bs,
        fmt::has_magic(b, ALLOC_MAGIC),
    ensures
        vol::txn_ok(roottable::table_to(t, ag, local, b), v.bs),
        same_but(v, t, roottable::table_to(t, ag, local, b), ag, local),
        roottable::table_of(v, roottable::table_to(t, ag, local, b), ag, local) == Ok::<
            Seq<u8>,
            FsError,
        >(roottable::table_image(b)),
        roottable::table_image(b).len() == v.bs,
        fmt::same_bytes(roottable::table_image(b), b, 16, v.bs as int),
{
    let t1 = roottable::table_to(t, ag, local, b);
    let g = fmt::u64_at(b, 8);
    let b1 = fmt::splice(b, 8, fmt::be64(if g == u64::MAX { 0 } else { (g + 1) as u64 }));
    fmt::lemma_sealed(b1);
    assert(b1.len() == b.len());
    assert forall|i: int| 0 <= i < 4 || 16 <= i < v.bs implies #[trigger] roottable::table_image(
        b,
    )[i] == b[i] by {
        assert(b1[i] == b[i]);
    }
    assert forall|l: u32|
        #![trigger fmt::addr_of(ag, l)]
        l != local implies vol::rd(v, t1, fmt::addr_of(ag, l)) == vol::rd(
        v,
        t,
        fmt::addr_of(ag, l),
    ) by {
        lemma_addr(ag, local, l);
    }
}

/// What writing table block `local` keeps and changes: record `idx` is `rec`,
/// the bitmap is `used`, and everything else of the tables is as in `b`.
proof fn lemma_table_change(
    v: Vol,
    t: Map<u64, Seq<u8>>,
    ag: u32,
    local: u32,
    b: Seq<u8>,
    idx: u16,
    rec: Seq<u8>,
    used: u32,
)
    requires
        vol::txn_ok(t, v.bs),
        v.bs >= 128,
        b.len() == v.bs,
        fmt::has_magic(b, ALLOC_MAGIC),
        rec.len() == 128,
        roottable::rec_off_of(idx) + 128 <= v.bs,
    ensures
        ({
            let b1 = fmt::splice(
                fmt::splice(b, 16, fmt::be32(used)),
                roottable::rec_off_of(idx),
                rec,
            );
            let t1 = roottable::table_to(t, ag, local, b1);
            &&& vol::txn_ok(t1, v.bs)
            &&& same_but(v, t, t1, ag, local)
            &&& roottable::table_of(v, t1, ag, local) is Ok
            &&& used_bits(v, t1, ag, local) == used
            &&& roottable::record_of(v, t1, ag, (local, idx)) == Ok::<Seq<u8>, FsError>(rec)
            &&& forall|j: u16|
                #![trigger roottable::record_of(v, t1, ag, (local, j))]
                j != idx && roottable::rec_off_of(j) + 128 <= v.bs ==> roottable::record_of(
                    v,
                    t1,
                    ag,
                    (local, j),
                ) == Ok::<Seq<u8>, FsError>(
                    b.subrange(roottable::rec_off_of(j), roottable::rec_off_of(j) + 128),
                )
        }),
{
    let off = roottable::rec_off_of(idx);
    let b0 = fmt::splice(b, 16, fmt::be32(used));
    let b1 = fmt::splice(b0, off, rec);
    let t1 = roottable::table_to(t, ag, local, b1);
    let img = roottable::table_image(b1);
    assert(b1[0] == b[0] && b1[1] == b[1] && b1[2] == b[2] && b1[3] == b[3]);
    lemma_table_to(v, t, ag, local, b1);
    assert(img[16] == b1[16] && img[17] == b1[17] && img[18] == b1[18] && img[19] == b1[19]);
    assert(b1[16] == b0[16] && b1[17] == b0[17] && b1[18] == b0[18] && b1[19] == b0[19]);
    fmt::lemma_u32_of(img, 16, used);
    assert(img.subrange(off, off + 128) =~= rec);
    assert forall|j: u16|
        #![trigger roottable::record_of(v, t1, ag, (local, j))]
        j != idx && roottable::rec_off_of(j) + 128 <= v.bs implies roottable::record_of(
        v,
        t1,
        ag,
        (local, j),
    ) == Ok::<Seq<u8>, FsError>(
        b.subrange(roottable::rec_off_of(j), roottable::rec_off_of(j) + 128),
    ) by {
        let o = roottable::rec_off_of(j);
        assert(img.subrange(o, o + 128) =~= b.subrange(o, o + 128));
    }
}

/// The bytes of a sum of bytes.
proof fn lemma_bytes_of(b0: int, b1: int, b2: int, b3: int)
    requires
        0 <= b0 < 256,
        0 <= b1 < 256,
        0 <= b2 < 256,
        0 <= b3 < 256,
    ensures
        ({
            let x = b0 * 0x100_0000 + b1 * 0x1_0000 + b2 * 0x100 + b3;
            &&& x / 0x100_0000 == b0
            &&& x / 0x1_0000 % 0x100 == b1
            &&& x / 0x100 % 0x100 == b2
            &&& x % 0x100 == b3
        }),
{
    let x = b0 * 0x100_0000 + b1 * 0x1_0000 + b2 * 0x100 + b3;
    assert(x / 0x1_0000 == b0 * 0x100 + b1);
    assert(x / 0x100 == b0 * 0x1_0000 + b1 * 0x100 + b2);
}

/// Writing a field as it is changes nothing.
#[verifier::spinoff_prover]
proof fn lemma_refield(b: Seq<u8>, o: int)
    requires
        0 <= o,
        o + 4 <= b.len(),
    ensures
        fmt::splice(b, o, fmt::be32(fmt::u32_at(b, o))) == b,
{
    let x = fmt::u32_at(b, o);
    lemma_bytes_of(b[o] as int, b[o + 1] as int, b[o + 2] as int, b[o + 3] as int);
    let w = fmt::be32(x);
    assert(w[0] == b[o] && w[1] == b[o + 1] && w[2] == b[o + 2] && w[3] == b[o + 3]);
    assert(fmt::splice(b, o, w) =~= b);
}

/// Replacing a record: it reads back, and every other record, every bitmap and
/// every other block is as it was.
#[verifier::rlimit(40)]
pub proof fn lemma_record_to(v: Vol, t: Map<u64, Seq<u8>>, ag: u32, r: (u32, u16), rec: Seq<u8>)
    requires
        vol::txn_ok(t, v.bs),
        v.bs >= 128,
        rec.len() == 128,
        roottable::record_to(v, t, ag, r, rec).1 is Ok,
    ensures
        ({
            let t1 = roottable::record_to(v, t, ag, r, rec).0;
            &&& vol::txn_ok(t1, v.bs)
            &&& same_but(v, t, t1, ag, r.0)
            &&& roottable::table_of(v, t1, ag, r.0) is Ok
            &&& used_bits(v, t1, ag, r.0) == used_bits(v, t, ag, r.0)
            &&& roottable::record_of(v, t1, ag, r) == Ok::<Seq<u8>, FsError>(rec)
            &&& forall|q: (u32, u16)|
                q != r ==> #[trigger] roottable::record_of(v, t1, ag, q) == roottable::record_of(
                    v,
                    t,
                    ag,
                    q,
                )
        }),
{
    let t1 = roottable::record_to(v, t, ag, r, rec).0;
    let b = roottable::table_of(v, t, ag, r.0)->Ok_0;
    let used = fmt::u32_at(b, 16);
    vol::lemma_rd_len(v, t, fmt::addr_of(ag, r.0));
    lemma_table_change(v, t, ag, r.0, b, r.1, rec, used);
    lemma_refield(b, 16);
    assert forall|q: (u32, u16)| q != r implies #[trigger] roottable::record_of(v, t1, ag, q)
        == roottable::record_of(v, t, ag, q) by {
        if q.0 != r.0 {
            assert(vol::rd(v, t1, fmt::addr_of(ag, q.0)) == vol::rd(v, t, fmt::addr_of(ag, q.0)));
        } else {
            assert(q == (r.0, q.1));
        }
    }
}

// --- soundness ----------------------------------------------------------------

/// A reference to a record that is in use, in a table block off the root
/// table, in a reserved cell.
pub open spec fn good_ref(v: Vol, t: Map<u64, Seq<u8>>, hdr: AgHeader, r: (u32, u16)) -> bool {
    &&& off_root(hdr, v.bs, r.0)
    &&& r.1 < allocator::usable_recs(v.bs)
    &&& roottable::record_of(v, t, hdr.ag_num, r) is Ok
    &&& record::bit_on(used_bits(v, t, hdr.ag_num, r.0), r.1 as int)
    &&& r.0 as int / 256 < allocator::cells_in(hdr)
    &&& roottable::cell_of(v, t, hdr, r.0 as int / 256) == Ok::<u8, FsError>(CELL_RSVD)
}

/// The record of level-0 cell `c`.
pub open spec fn cell_rec(v: Vol, t: Map<u64, Seq<u8>>, hdr: AgHeader, c: int) -> Seq<u8> {
    roottable::record_of(v, t, hdr.ag_num, roottable::cell_ref(v, t, hdr, c)->Ok_0)->Ok_0
}

/// Whether cell `c` (for `i` 16), or its child `i` (below 16), is refined.
pub open spec fn holds(v: Vol, t: Map<u64, Seq<u8>>, hdr: AgHeader, c: int, i: int) -> bool {
    &&& 0 <= c < allocator::cells_in(hdr)
    &&& 0 <= i <= 16
    &&& roottable::cell_of(v, t, hdr, c) == Ok::<u8, FsError>(CELL_REFINED)
    &&& i < 16 ==> fmt::cell_at(cell_rec(v, t, hdr, c), i) == CELL_REFINED
}

/// The reference that it holds.
pub open spec fn held(v: Vol, t: Map<u64, Seq<u8>>, hdr: AgHeader, c: int, i: int) -> (u32, u16) {
    if i == 16 {
        roottable::cell_ref(v, t, hdr, c)->Ok_0
    } else {
        record::ref_of(cell_rec(v, t, hdr, c), i)
    }
}

/// The fixed parts of the tables are sound: the cells can be read, and the
/// header, the root table and the arena stand in reserved cells, apart.
pub open spec fn base_sound(v: Vol, t: Map<u64, Seq<u8>>, hdr: AgHeader) -> bool {
    &&& v.bs >= 256
    &&& vol::txn_ok(t, v.bs)
    &&& !in_root(hdr, v.bs, fs::header_local(hdr.ag_num) as int)
    &&& allocator::cells_in(hdr) > 0
    &&& forall|c: int|
        0 <= c < allocator::cells_in(hdr) ==> (#[trigger] roottable::cell_of(v, t, hdr, c)) is Ok
    &&& forall|c: int|
        0 <= c < allocator::cells_in(hdr) ==> (#[trigger] roottable::cell_ref(v, t, hdr, c)) is Ok
    &&& forall|l: u32|
        !(#[trigger] off_root(hdr, v.bs, l)) && l as int / 256 < allocator::cells_in(hdr)
            ==> roottable::cell_of(v, t, hdr, l as int / 256) == Ok::<u8, FsError>(CELL_RSVD)
    &&& hdr.tbl_arena != 0 ==> {
        &&& hdr.tbl_arena % 256 == 0
        &&& hdr.tbl_arena as int / 256 < allocator::cells_in(hdr)
        &&& roottable::cell_of(v, t, hdr, hdr.tbl_arena as int / 256) == Ok::<u8, FsError>(
            CELL_RSVD,
        )
        &&& forall|l: u32|
            l as int / 256 == hdr.tbl_arena as int / 256 ==> #[trigger] off_root(hdr, v.bs, l)
    }
}

/// The tables are sound, cell `skip` left out of the account: what is refined
/// has a record in use, and no two have the same.
pub open spec fn sound_but(v: Vol, t: Map<u64, Seq<u8>>, hdr: AgHeader, skip: int) -> bool {
    &&& base_sound(v, t, hdr)
    &&& forall|c: int, i: int|
        c != skip && #[trigger] holds(v, t, hdr, c, i) ==> good_ref(
            v,
            t,
            hdr,
            held(v, t, hdr, c, i),
        )
    &&& forall|c: int, i: int, d: int, j: int|
        c != skip && d != skip && #[trigger] holds(v, t, hdr, c, i) && #[trigger] holds(
            v,
            t,
            hdr,
            d,
            j,
        ) && held(v, t, hdr, c, i) == held(v, t, hdr, d, j) ==> c == d && i == j
}

/// The tables are sound.
pub open spec fn sound(v: Vol, t: Map<u64, Seq<u8>>, hdr: AgHeader) -> bool {
    sound_but(v, t, hdr, -1)
}

/// Two headers that place the tables alike.
pub open spec fn same_place(a: AgHeader, b: AgHeader) -> bool {
    &&& a.ag_num == b.ag_num
    &&& a.length == b.length
    &&& a.alloc_root == b.alloc_root
}

/// From one to the other, cells keep their references, free ones may become
/// reserved, and records that are held keep what they hold.
pub open spec fn kept(v: Vol, t: Map<u64, Seq<u8>>, t1: Map<u64, Seq<u8>>, hdr: AgHeader, skip: int) -> bool {
    &&& forall|c: int|
        0 <= c < allocator::cells_in(hdr) ==> #[trigger] roottable::cell_ref(v, t1, hdr, c)
            == roottable::cell_ref(v, t, hdr, c)
    &&& forall|c: int|
        c != skip && 0 <= c < allocator::cells_in(hdr) ==> {
            let a = roottable::cell_of(v, t, hdr, c);
            let b = #[trigger] roottable::cell_of(v, t1, hdr, c);
            b == a || (a == Ok::<u8, FsError>(CELL_FREE) && b == Ok::<u8, FsError>(CELL_RSVD))
        }
    &&& forall|c: int, i: int|
        c != skip && #[trigger] holds(v, t, hdr, c, i) ==> roottable::record_of(
            v,
            t1,
            hdr.ag_num,
            held(v, t, hdr, c, i),
        ) == roottable::record_of(v, t, hdr.ag_num, held(v, t, hdr, c, i))
}

/// What is refined stays so, with the same reference.
pub proof fn lemma_kept_holds(
    v: Vol,
    t: Map<u64, Seq<u8>>,
    t1: Map<u64, Seq<u8>>,
    hdr: AgHeader,
    skip: int,
)
    requires
        kept(v, t, t1, hdr, skip),
    ensures
        forall|c: int, i: int|
            c != skip ==> #[trigger] holds(v, t1, hdr, c, i) == holds(v, t, hdr, c, i),
        forall|c: int, i: int|
            c != skip && holds(v, t, hdr, c, i) ==> #[trigger] held(v, t1, hdr, c, i) == held(
                v,
                t,
                hdr,
                c,
                i,
            ),
{
    assert forall|c: int, i: int| c != skip implies {
        &&& #[trigger] holds(v, t1, hdr, c, i) == holds(v, t, hdr, c, i)
        &&& holds(v, t, hdr, c, i) ==> held(v, t1, hdr, c, i) == held(v, t, hdr, c, i)
    } by {
        if 0 <= c < allocator::cells_in(hdr) {
            assert(roottable::cell_ref(v, t1, hdr, c) == roottable::cell_ref(v, t, hdr, c));
            let a = roottable::cell_of(v, t, hdr, c);
            let b = roottable::cell_of(v, t1, hdr, c);
            if a == Ok::<u8, FsError>(CELL_REFINED) {
                assert(holds(v, t, hdr, c, 16));
                assert(cell_rec(v, t1, hdr, c) == cell_rec(v, t, hdr, c));
            }
        }
    }
    assert forall|c: int, i: int| c != skip && holds(v, t, hdr, c, i) implies #[trigger] held(
        v,
        t1,
        hdr,
        c,
        i,
    ) == held(v, t, hdr, c, i) by {
        assert(holds(v, t1, hdr, c, i) == holds(v, t, hdr, c, i));
    }
}

/// Headers that place the tables alike read the same.
pub proof fn lemma_same_place(v: Vol, t: Map<u64, Seq<u8>>, a: AgHeader, b: AgHeader)
    requires
        same_place(a, b),
    ensures
        forall|c: int|
            #[trigger] roottable::cell_of(v, t, b, c) == roottable::cell_of(v, t, a, c),
        forall|c: int|
            #[trigger] roottable::cell_ref(v, t, b, c) == roottable::cell_ref(v, t, a, c),
        forall|c: int, i: int| #[trigger] holds(v, t, b, c, i) == holds(v, t, a, c, i),
        forall|c: int, i: int| #[trigger] held(v, t, b, c, i) == held(v, t, a, c, i),
        forall|r: (u32, u16)| #[trigger] good_ref(v, t, b, r) == good_ref(v, t, a, r),
        forall|l: u32| #[trigger] off_root(b, v.bs, l) == off_root(a, v.bs, l),
{
    assert forall|c: int| #[trigger]
        roottable::cell_of(v, t, b, c) == roottable::cell_of(v, t, a, c) by {
        lemma_get_place(v, t, a, b, c / 4);
    }
    assert forall|c: int| #[trigger]
        roottable::cell_ref(v, t, b, c) == roottable::cell_ref(v, t, a, c) by {
        lemma_gets_place(v, t, a, b, roottable::cell_ref_off(a, c), 6);
    }
}

proof fn lemma_get_place(v: Vol, t: Map<u64, Seq<u8>>, a: AgHeader, b: AgHeader, o: int)
    requires
        same_place(a, b),
    ensures
        roottable::rt_get(v, t, b, o) == roottable::rt_get(v, t, a, o),
{
}

proof fn lemma_gets_place(v: Vol, t: Map<u64, Seq<u8>>, a: AgHeader, b: AgHeader, off: int, n: int)
    requires
        same_place(a, b),
    ensures
        roottable::rt_gets(v, t, b, off, n) == roottable::rt_gets(v, t, a, off, n),
    decreases n,
{
    if n > 0 {
        lemma_gets_place(v, t, a, b, off, n - 1);
        lemma_get_place(v, t, a, b, off + n - 1);
    }
}

/// Sound tables stay sound where what is held is kept and still good.
pub proof fn lemma_sound_kept(
    v: Vol,
    t: Map<u64, Seq<u8>>,
    t1: Map<u64, Seq<u8>>,
    hdr: AgHeader,
    hdr1: AgHeader,
    skip: int,
)
    requires
        sound_but(v, t, hdr, skip),
        kept(v, t, t1, hdr, skip),
        same_place(hdr, hdr1),
        base_sound(v, t1, hdr1),
        forall|c: int, i: int|
            c != skip && #[trigger] holds(v, t, hdr, c, i) ==> good_ref(
                v,
                t1,
                hdr,
                held(v, t, hdr, c, i),
            ),
    ensures
        sound_but(v, t1, hdr1, skip),
{
    lemma_same_place(v, t1, hdr, hdr1);
    lemma_kept_holds(v, t, t1, hdr, skip);
    assert forall|c: int, i: int| c != skip && #[trigger] holds(v, t1, hdr1, c, i) implies good_ref(
        v,
        t1,
        hdr1,
        held(v, t1, hdr1, c, i),
    ) by {
        assert(holds(v, t1, hdr, c, i));
        assert(holds(v, t, hdr, c, i));
        assert(held(v, t1, hdr, c, i) == held(v, t, hdr, c, i));
    }
    assert forall|c: int, i: int, d: int, j: int|
        c != skip && d != skip && #[trigger] holds(v, t1, hdr1, c, i) && #[trigger] holds(
            v,
            t1,
            hdr1,
            d,
            j,
        ) && held(v, t1, hdr1, c, i) == held(v, t1, hdr1, d, j) implies c == d && i == j by {
        assert(holds(v, t1, hdr, c, i) && holds(v, t1, hdr, d, j));
        assert(holds(v, t, hdr, c, i) && holds(v, t, hdr, d, j));
        assert(held(v, t1, hdr, c, i) == held(v, t, hdr, c, i));
        assert(held(v, t1, hdr, d, j) == held(v, t, hdr, d, j));
    }
}

/// A block off the root table may change without touching the cells.
pub proof fn lemma_off_root(v: Vol, t: Map<u64, Seq<u8>>, t1: Map<u64, Seq<u8>>, hdr: AgHeader, local: u32)
    requires
        base_sound(v, t, hdr),
        vol::txn_ok(t1, v.bs),
        same_but(v, t, t1, hdr.ag_num, local),
        !in_root(hdr, v.bs, local as int),
    ensures
        base_sound(v, t1, hdr),
        forall|c: int|
            0 <= c < allocator::cells_in(hdr) ==> #[trigger] roottable::cell_of(v, t1, hdr, c)
                == roottable::cell_of(v, t, hdr, c),
        forall|c: int|
            0 <= c < allocator::cells_in(hdr) ==> #[trigger] roottable::cell_ref(v, t1, hdr, c)
                == roottable::cell_ref(v, t, hdr, c),
{
    lemma_root_same(v, t, t1, hdr);
}

// --- claiming a record --------------------------------------------------------

/// What claiming a record `r` keeps: the tables stay sound, and `r` is a new
/// record, empty, that nothing holds yet.
pub open spec fn claimed_well(v: Vol, s: St, s1: St, skip: int, r: (u32, u16)) -> bool {
    &&& same_place(s.hdr, s1.hdr)
    &&& sound_but(v, s1.t, s1.hdr, skip)
    &&& kept(v, s.t, s1.t, s.hdr, skip)
    &&& 0 <= skip < allocator::cells_in(s.hdr) ==> roottable::cell_of(v, s1.t, s1.hdr, skip)
        == roottable::cell_of(v, s.t, s.hdr, skip)
    &&& good_ref(v, s1.t, s1.hdr, r)
    &&& roottable::record_of(v, s1.t, s1.hdr.ag_num, r) == Ok::<Seq<u8>, FsError>(
        fmt::zeros(128),
    )
    &&& forall|c: int, i: int|
        c != skip && #[trigger] holds(v, s.t, s.hdr, c, i) ==> held(v, s.t, s.hdr, c, i) != r
}

/// The bitmap with one bit more.
proof fn lemma_bitmap(u: u32, idx: int, j: int)
    requires
        0 <= idx < 32,
        0 <= j,
    ensures
        record::bit_set(u as int, idx) == record::bit_set(u as int, idx) as u32,
        record::bit_clear(u as int, idx) == record::bit_clear(u as int, idx) as u32,
        record::bit_on(record::bit_set(u as int, idx), j) == (idx == j || record::bit_on(
            u as int,
            j,
        )),
        record::bit_on(record::bit_clear(u as int, idx), j) == (idx != j && record::bit_on(
            u as int,
            j,
        )),
{
    reveal_with_fuel(record::two_to, 33);
    record::lemma_bit_bound(u as int, idx, 32);
    record::lemma_bit_put(u as int, idx, j);
}

/// A good reference stays good when another record of the tables changes.
proof fn lemma_good_after(
    v: Vol,
    t: Map<u64, Seq<u8>>,
    t1: Map<u64, Seq<u8>>,
    hdr: AgHeader,
    local: u32,
    q: (u32, u16),
)
    requires
        base_sound(v, t, hdr),
        vol::txn_ok(t1, v.bs),
        same_but(v, t, t1, hdr.ag_num, local),
        off_root(hdr, v.bs, local),
        good_ref(v, t, hdr, q),
        q.0 == local ==> {
            &&& roottable::record_of(v, t1, hdr.ag_num, q) is Ok
            &&& record::bit_on(used_bits(v, t1, hdr.ag_num, local), q.1 as int)
        },
    ensures
        good_ref(v, t1, hdr, q),
        q.0 != local ==> roottable::record_of(v, t1, hdr.ag_num, q) == roottable::record_of(
            v,
            t,
            hdr.ag_num,
            q,
        ),
{
    lemma_off_root(v, t, t1, hdr, local);
    if q.0 != local {
        assert(vol::rd(v, t1, fmt::addr_of(hdr.ag_num, q.0)) == vol::rd(
            v,
            t,
            fmt::addr_of(hdr.ag_num, q.0),
        ));
    }
}

/// Claiming record `idx`, not in use, of a block that has room.
#[verifier::rlimit(40)]
proof fn lemma_claim_in(v: Vol, s: St, skip: int, local: u32, buf: Seq<u8>, idx: int)
    requires
        sound_but(v, s.t, s.hdr, skip),
        off_root(s.hdr, v.bs, local),
        local as int / 256 < allocator::cells_in(s.hdr),
        roottable::cell_of(v, s.t, s.hdr, local as int / 256) == Ok::<u8, FsError>(CELL_RSVD),
        allocator::arena_table(v, s.t, s.hdr.ag_num, local) == Ok::<Seq<u8>, FsError>(buf),
        0 <= idx < allocator::usable_recs(v.bs),
        !record::bit_on(fmt::u32_at(buf, 16) as int, idx),
    ensures
        claimed_well(
            v,
            s,
            St {
                t: roottable::table_to(
                    s.t,
                    s.hdr.ag_num,
                    local,
                    allocator::claimed(buf, idx),
                ),
                ..s
            },
            skip,
            (local, idx as u16),
        ),
{
    let (t, hdr, ag) = (s.t, s.hdr, s.hdr.ag_num);
    let used = fmt::u32_at(buf, 16);
    let used1 = record::bit_set(used as int, idx) as u32;
    let t1 = roottable::table_to(t, ag, local, allocator::claimed(buf, idx));
    let r = (local, idx as u16);
    vol::lemma_rd_len(v, t, fmt::addr_of(ag, local));
    let raw = vol::rd(v, t, fmt::addr_of(ag, local))->Ok_0;
    if !fmt::has_magic(raw, ALLOC_MAGIC) {
        assert(buf == allocator::fresh_table(v.bs));
        assert(buf[0] == ALLOC_MAGIC@[0] && buf[1] == ALLOC_MAGIC@[1] && buf[2]
            == ALLOC_MAGIC@[2] && buf[3] == ALLOC_MAGIC@[3]);
    }
    lemma_bitmap(used, idx, idx);
    lemma_table_change(v, t, ag, local, buf, idx as u16, fmt::zeros(128), used1);
    lemma_off_root(v, t, t1, hdr, local);
    assert forall|c: int, i: int| c != skip && #[trigger] holds(v, t, hdr, c, i) implies {
        let q = held(v, t, hdr, c, i);
        &&& q != r
        &&& good_ref(v, t1, hdr, q)
        &&& roottable::record_of(v, t1, ag, q) == roottable::record_of(v, t, ag, q)
    } by {
        let q = held(v, t, hdr, c, i);
        assert(good_ref(v, t, hdr, q));
        if q.0 == local {
            assert(roottable::table_of(v, t, ag, local) == Ok::<Seq<u8>, FsError>(buf));
            assert(q == (local, q.1));
            lemma_bitmap(used, idx, q.1 as int);
        }
        lemma_good_after(v, t, t1, hdr, local, q);
    }
    lemma_sound_kept(v, t, t1, hdr, hdr, skip);
}

/// A free cell is none of the reserved ones.
pub proof fn lemma_free_apart(v: Vol, t: Map<u64, Seq<u8>>, hdr: AgHeader, c: int)
    requires
        base_sound(v, t, hdr),
        0 <= c < allocator::cells_in(hdr),
        roottable::cell_of(v, t, hdr, c) != Ok::<u8, FsError>(CELL_RSVD),
    ensures
        c > 0,
        c * 256 <= u32::MAX,
        forall|l: u32| l as int / 256 == c ==> #[trigger] off_root(hdr, v.bs, l),
        hdr.tbl_arena != 0 ==> hdr.tbl_arena as int / 256 != c,
{
    fmt::lemma_ceil_div(hdr.length as int, 256);
    let h = fs::header_local(hdr.ag_num);
    assert(!off_root(hdr, v.bs, h));
}

/// Reserving a free cell, or changing another cell's state, keeps the tables
/// sound where no reserved cell is touched.
proof fn lemma_cell_change(v: Vol, t: Map<u64, Seq<u8>>, hdr: AgHeader, c: int, st: u8, skip: int)
    requires
        sound_but(v, t, hdr, skip),
        0 <= c < allocator::cells_in(hdr),
        st < 4,
        roottable::cell_of(v, t, hdr, c) != Ok::<u8, FsError>(CELL_RSVD),
        roottable::cell_to(v, t, hdr, c, st).1 is Ok,
    ensures
        base_sound(v, roottable::cell_to(v, t, hdr, c, st).0, hdr),
        forall|r: (u32, u16)|
            good_ref(v, t, hdr, r) ==> #[trigger] good_ref(
                v,
                roottable::cell_to(v, t, hdr, c, st).0,
                hdr,
                r,
            ),
        forall|r: (u32, u16)|
            good_ref(v, t, hdr, r) ==> #[trigger] roottable::record_of(
                v,
                roottable::cell_to(v, t, hdr, c, st).0,
                hdr.ag_num,
                r,
            ) == roottable::record_of(v, t, hdr.ag_num, r),
{
    let t1 = roottable::cell_to(v, t, hdr, c, st).0;
    lemma_cell_to(v, t, hdr, c, st);
    lemma_free_apart(v, t, hdr, c);
    assert forall|r: (u32, u16)| good_ref(v, t, hdr, r) implies {
        &&& #[trigger] good_ref(v, t1, hdr, r)
        &&& roottable::record_of(v, t1, hdr.ag_num, r) == roottable::record_of(
            v,
            t,
            hdr.ag_num,
            r,
        )
    } by {
        assert(vol::rd(v, t1, fmt::addr_of(hdr.ag_num, r.0)) == vol::rd(
            v,
            t,
            fmt::addr_of(hdr.ag_num, r.0),
        ));
    }
    assert forall|r: (u32, u16)| good_ref(v, t, hdr, r) implies #[trigger] roottable::record_of(
        v,
        t1,
        hdr.ag_num,
        r,
    ) == roottable::record_of(v, t, hdr.ag_num, r) by {
        assert(good_ref(v, t1, hdr, r));
    }
}

/// The first block of a new arena, its first record in use.
pub proof fn lemma_fresh_arena(v: Vol, t: Map<u64, Seq<u8>>, ag: u32, local: u32)
    requires
        vol::txn_ok(t, v.bs),
        v.bs >= 256,
    ensures
        ({
            let t1 = roottable::table_to(
                t,
                ag,
                local,
                fmt::splice(allocator::fresh_table(v.bs), 16, fmt::be32(1)),
            );
            &&& vol::txn_ok(t1, v.bs)
            &&& same_but(v, t, t1, ag, local)
            &&& used_bits(v, t1, ag, local) == 1
            &&& roottable::record_of(v, t1, ag, (local, 0)) == Ok::<Seq<u8>, FsError>(
                fmt::zeros(128),
            )
        }),
{
    let fresh = allocator::fresh_table(v.bs);
    let b1 = fmt::splice(fresh, 16, fmt::be32(1));
    assert(fresh[0] == ALLOC_MAGIC@[0] && fresh[1] == ALLOC_MAGIC@[1] && fresh[2]
        == ALLOC_MAGIC@[2] && fresh[3] == ALLOC_MAGIC@[3]);
    lemma_table_change(v, t, ag, local, fresh, 0, fmt::zeros(128), 1);
    assert(fmt::splice(b1, roottable::rec_off_of(0), fmt::zeros(128)) =~= b1);
}

/// Claiming a new arena.
#[verifier::rlimit(40)]
proof fn lemma_new_arena(v: Vol, s: St, skip: int)
    requires
        sound_but(v, s.t, s.hdr, skip),
        0 <= skip < allocator::cells_in(s.hdr) ==> roottable::cell_of(v, s.t, s.hdr, skip) != Ok::<
            u8,
            FsError,
        >(CELL_FREE),
    ensures
        allocator::new_arena(v, s).1 matches Ok(r) ==> claimed_well(
            v,
            s,
            allocator::new_arena(v, s).0,
            skip,
            r,
        ),
{
    let (t, hdr, ag) = (s.t, s.hdr, s.hdr.ag_num);
    let cells = allocator::cells_in(hdr);
    lemma_first_cell(v, t, hdr, CELL_FREE, 0, cells);
    if let Some(c) = roottable::first_cell(v, t, hdr, CELL_FREE, 0, cells) {
        let (s2, r2) = allocator::new_arena(v, s);
        if r2 is Ok {
            let r = r2->Ok_0;
            let hdr2 = s2.hdr;
            let t1 = roottable::cell_to(v, t, hdr, c, CELL_RSVD).0;
            let local = (c * 256) as u32;
            let t2 = s2.t;
            lemma_cell_to(v, t, hdr, c, CELL_RSVD);
            lemma_cell_change(v, t, hdr, c, CELL_RSVD, skip);
            lemma_free_apart(v, t, hdr, c);
            assert(off_root(hdr, v.bs, local));
            lemma_fresh_arena(v, t1, ag, local);
            lemma_off_root(v, t1, t2, hdr, local);
            lemma_same_place(v, t2, hdr, hdr2);
            assert(record::bit_on(1, 0));
            assert forall|d: int, i: int| d != skip && #[trigger] holds(v, t, hdr, d, i) implies {
                let q = held(v, t, hdr, d, i);
                &&& q != r
                &&& good_ref(v, t2, hdr, q)
                &&& roottable::record_of(v, t2, ag, q) == roottable::record_of(v, t, ag, q)
            } by {
                let q = held(v, t, hdr, d, i);
                assert(good_ref(v, t, hdr, q));
                assert(good_ref(v, t1, hdr, q));
                assert(q.0 != local);
                lemma_good_after(v, t1, t2, hdr, local, q);
            }
            assert(base_sound(v, t2, hdr2)) by {
                assert forall|l: u32| l as int / 256 == hdr2.tbl_arena as int
                    / 256 implies #[trigger] off_root(hdr2, v.bs, l) by {
                    assert(off_root(hdr, v.bs, l));
                }
                assert forall|l: u32|
                    !(#[trigger] off_root(hdr2, v.bs, l)) && l as int / 256
                        < allocator::cells_in(hdr2) implies roottable::cell_of(
                    v,
                    t2,
                    hdr2,
                    l as int / 256,
                ) == Ok::<u8, FsError>(CELL_RSVD) by {
                    assert(!off_root(hdr, v.bs, l));
                }
            }
            lemma_sound_kept(v, t, t2, hdr, hdr2, skip);
        }
    }
}

/// A cell that is found is in the state asked for.
pub proof fn lemma_first_cell(v: Vol, t: Map<u64, Seq<u8>>, hdr: AgHeader, st: u8, c: int, cells: int)
    requires
        0 <= c,
    ensures
        roottable::first_cell(v, t, hdr, st, c, cells) matches Some(x) ==> c <= x < cells
            && roottable::cell_of(v, t, hdr, x) == Ok::<u8, FsError>(st),
    decreases cells - c,
{
    if c < cells && roottable::cell_of(v, t, hdr, c) != Ok::<u8, FsError>(st) {
        lemma_first_cell(v, t, hdr, st, c + 1, cells);
    }
}

/// A table block with a record to spare, and the record.
pub proof fn lemma_spare_rec(v: Vol, t: Map<u64, Seq<u8>>, ag: u32, b: int, end: int)
    requires
        0 <= b,
        end <= u32::MAX,
    ensures
        allocator::spare_rec(v, t, ag, b, end) matches Ok(Some((l, buf, idx))) ==> {
            &&& b <= l < end
            &&& allocator::arena_table(v, t, ag, l) == Ok::<Seq<u8>, FsError>(buf)
            &&& 0 <= idx < allocator::usable_recs(v.bs)
            &&& !record::bit_on(fmt::u32_at(buf, 16) as int, idx)
        },
    decreases end - b,
{
    if b < end {
        if let Ok(buf) = allocator::arena_table(v, t, ag, b as u32) {
            let used = fmt::u32_at(buf, 16) as int;
            if record::ones(used) >= allocator::usable_recs(v.bs) {
                lemma_spare_rec(v, t, ag, b + 1, end);
            } else {
                record::lemma_some_clear(used, 0, allocator::usable_recs(v.bs));
                record::lemma_first_clear(used, 0, allocator::usable_recs(v.bs));
            }
        }
    }
}

/// Claiming a record.
pub proof fn lemma_claim(v: Vol, s: St, skip: int)
    requires
        sound_but(v, s.t, s.hdr, skip),
        0 <= skip < allocator::cells_in(s.hdr) ==> roottable::cell_of(v, s.t, s.hdr, skip) != Ok::<
            u8,
            FsError,
        >(CELL_FREE),
    ensures
        allocator::claim_rec(v, s).1 matches Ok(r) ==> claimed_well(
            v,
            s,
            allocator::claim_rec(v, s).0,
            skip,
            r,
        ),
{
    let (t, hdr, ag) = (s.t, s.hdr, s.hdr.ag_num);
    lemma_new_arena(v, s, skip);
    let a = hdr.tbl_arena as int;
    if a != 0 && a + 256 <= u32::MAX {
        lemma_spare_rec(v, t, ag, a, a + 256);
        if let Ok(Some((l, buf, idx))) = allocator::spare_rec(v, t, ag, a, a + 256) {
            assert(l as int / 256 == a / 256);
            assert(off_root(hdr, v.bs, l));
            lemma_claim_in(v, s, skip, l, buf, idx);
        }
    }
}

// --- states of blocks ---------------------------------------------------------

/// The state of a block inside the level-0 cell with record `rec`.
pub open spec fn state_in(v: Vol, t: Map<u64, Seq<u8>>, ag: u32, rec: Seq<u8>, b: int) -> Result<
    u8,
    FsError,
> {
    let i = b % 256 / 16;
    if fmt::cell_at(rec, i) != CELL_REFINED {
        Ok(fmt::cell_at(rec, i))
    } else {
        match roottable::record_of(v, t, ag, record::ref_of(rec, i)) {
            Err(e) => Err(e),
            Ok(sub) => Ok(fmt::cell_at(sub, b % 16)),
        }
    }
}

/// The state of block `b` of a group: that of the finest cell that covers it.
pub open spec fn block_state(v: Vol, t: Map<u64, Seq<u8>>, hdr: AgHeader, b: int) -> Result<
    u8,
    FsError,
> {
    match roottable::cell_of(v, t, hdr, b / 256) {
        Err(e) => Err(e),
        Ok(st) => if st != CELL_REFINED {
            Ok(st)
        } else {
            match roottable::cell_ref(v, t, hdr, b / 256) {
                Err(e) => Err(e),
                Ok(r) => match roottable::record_of(v, t, hdr.ag_num, r) {
                    Err(e) => Err(e),
                    Ok(rec) => state_in(v, t, hdr.ag_num, rec, b),
                },
            }
        },
    }
}

/// Blocks of the group, the last cell taken as whole.
pub open spec fn block_count(hdr: AgHeader) -> int {
    allocator::cells_in(hdr) * 256
}

/// Claiming changes no state but that of a free cell, which may be reserved.
proof fn lemma_kept_states(
    v: Vol,
    t: Map<u64, Seq<u8>>,
    t1: Map<u64, Seq<u8>>,
    hdr: AgHeader,
    skip: int,
    b: int,
)
    requires
        base_sound(v, t, hdr),
        kept(v, t, t1, hdr, skip),
        0 <= b < block_count(hdr),
        b / 256 != skip,
    ensures
        block_state(v, t1, hdr, b) == block_state(v, t, hdr, b) || (roottable::cell_of(
            v,
            t,
            hdr,
            b / 256,
        ) == Ok::<u8, FsError>(CELL_FREE) && block_state(v, t, hdr, b) == Ok::<u8, FsError>(
            CELL_FREE,
        ) && block_state(v, t1, hdr, b) == Ok::<u8, FsError>(CELL_RSVD)),
{
    let c = b / 256;
    let i = b % 256 / 16;
    assert(0 <= c < allocator::cells_in(hdr));
    assert(roottable::cell_of(v, t1, hdr, c) == roottable::cell_of(v, t1, hdr, b / 256));
    assert(roottable::cell_ref(v, t1, hdr, c) == roottable::cell_ref(v, t, hdr, c));
    if roottable::cell_of(v, t, hdr, c) == Ok::<u8, FsError>(CELL_REFINED) {
        assert(holds(v, t, hdr, c, 16));
        if roottable::record_of(v, t, hdr.ag_num, held(v, t, hdr, c, 16)) is Ok {
            if fmt::cell_at(cell_rec(v, t, hdr, c), i) == CELL_REFINED {
                assert(holds(v, t, hdr, c, i));
            }
        }
    }
}

/// An empty record has only free children.
proof fn lemma_empty_record(i: int)
    requires
        0 <= i < 16,
    ensures
        fmt::cell_at(fmt::zeros(128), i) == CELL_FREE,
{
}

/// Replacing the record at a good reference keeps the cells, the other records
/// and every good reference.
pub proof fn lemma_record_change(v: Vol, t: Map<u64, Seq<u8>>, hdr: AgHeader, l: (u32, u16), rec: Seq<u8>)
    requires
        base_sound(v, t, hdr),
        good_ref(v, t, hdr, l),
        rec.len() == 128,
        roottable::record_to(v, t, hdr.ag_num, l, rec).1 is Ok,
    ensures
        ({
            let t1 = roottable::record_to(v, t, hdr.ag_num, l, rec).0;
            &&& base_sound(v, t1, hdr)
            &&& forall|c: int|
                0 <= c < allocator::cells_in(hdr) ==> #[trigger] roottable::cell_of(v, t1, hdr, c)
                    == roottable::cell_of(v, t, hdr, c)
            &&& forall|c: int|
                0 <= c < allocator::cells_in(hdr) ==> #[trigger] roottable::cell_ref(v, t1, hdr, c)
                    == roottable::cell_ref(v, t, hdr, c)
            &&& roottable::record_of(v, t1, hdr.ag_num, l) == Ok::<Seq<u8>, FsError>(rec)
            &&& forall|q: (u32, u16)|
                q != l ==> #[trigger] roottable::record_of(v, t1, hdr.ag_num, q)
                    == roottable::record_of(v, t, hdr.ag_num, q)
            &&& forall|q: (u32, u16)|
                good_ref(v, t, hdr, q) ==> #[trigger] good_ref(v, t1, hdr, q)
        }),
{
    let t1 = roottable::record_to(v, t, hdr.ag_num, l, rec).0;
    lemma_record_to(v, t, hdr.ag_num, l, rec);
    lemma_off_root(v, t, t1, hdr, l.0);
    assert forall|q: (u32, u16)| good_ref(v, t, hdr, q) implies #[trigger] good_ref(
        v,
        t1,
        hdr,
        q,
    ) by {
        if q.0 == l.0 && q != l {
            assert(roottable::record_of(v, t1, hdr.ag_num, q) == roottable::record_of(
                v,
                t,
                hdr.ag_num,
                q,
            ));
        }
        lemma_good_after(v, t, t1, hdr, l.0, q);
    }
}

/// Releasing the record at a good reference keeps the cells, the other records
/// and every other good reference.
pub proof fn lemma_release(v: Vol, t: Map<u64, Seq<u8>>, hdr: AgHeader, l: (u32, u16))
    requires
        base_sound(v, t, hdr),
        good_ref(v, t, hdr, l),
        allocator::release_rec(v, t, hdr.ag_num, l).1 is Ok,
    ensures
        ({
            let t1 = allocator::release_rec(v, t, hdr.ag_num, l).0;
            &&& base_sound(v, t1, hdr)
            &&& forall|c: int|
                0 <= c < allocator::cells_in(hdr) ==> #[trigger] roottable::cell_of(v, t1, hdr, c)
                    == roottable::cell_of(v, t, hdr, c)
            &&& forall|c: int|
                0 <= c < allocator::cells_in(hdr) ==> #[trigger] roottable::cell_ref(v, t1, hdr, c)
                    == roottable::cell_ref(v, t, hdr, c)
            &&& forall|q: (u32, u16)|
                q != l && good_ref(v, t, hdr, q) ==> #[trigger] good_ref(v, t1, hdr, q)
            &&& forall|q: (u32, u16)|
                q != l && good_ref(v, t, hdr, q) ==> #[trigger] roottable::record_of(
                    v,
                    t1,
                    hdr.ag_num,
                    q,
                ) == roottable::record_of(v, t, hdr.ag_num, q)
        }),
{
    let ag = hdr.ag_num;
    let t1 = allocator::release_rec(v, t, ag, l).0;
    let b = roottable::table_of(v, t, ag, l.0)->Ok_0;
    let used = fmt::u32_at(b, 16);
    let idx = l.1 as int;
    vol::lemma_rd_len(v, t, fmt::addr_of(ag, l.0));
    lemma_bitmap(used, idx, idx);
    lemma_table_change(
        v,
        t,
        ag,
        l.0,
        b,
        l.1,
        fmt::zeros(128),
        record::bit_clear(used as int, idx) as u32,
    );
    lemma_off_root(v, t, t1, hdr, l.0);
    assert forall|q: (u32, u16)| q != l && good_ref(v, t, hdr, q) implies {
        &&& #[trigger] good_ref(v, t1, hdr, q)
        &&& roottable::record_of(v, t1, ag, q) == roottable::record_of(v, t, ag, q)
    } by {
        if q.0 == l.0 {
            assert(q == (l.0, q.1));
            lemma_bitmap(used, idx, q.1 as int);
            assert(roottable::record_of(v, t1, ag, (l.0, q.1)) == roottable::record_of(
                v,
                t,
                ag,
                q,
            ));
        }
        lemma_good_after(v, t, t1, hdr, l.0, q);
    }
    assert forall|q: (u32, u16)| q != l && good_ref(v, t, hdr, q) implies #[trigger]
        roottable::record_of(v, t1, ag, q) == roottable::record_of(v, t, ag, q) by {
        assert(good_ref(v, t1, hdr, q));
    }
}

/// Replacing the record of a refined child: the tables stay sound, and its
/// blocks alone change state.
#[verifier::rlimit(40)]
pub proof fn lemma_sub_change(v: Vol, t: Map<u64, Seq<u8>>, hdr: AgHeader, c: int, i: int, sub: Seq<u8>)
    requires
        sound(v, t, hdr),
        holds(v, t, hdr, c, i),
        i < 16,
        sub.len() == 128,
        roottable::record_to(v, t, hdr.ag_num, held(v, t, hdr, c, i), sub).1 is Ok,
    ensures
        ({
            let t1 = roottable::record_to(v, t, hdr.ag_num, held(v, t, hdr, c, i), sub).0;
            &&& sound(v, t1, hdr)
            &&& holds(v, t1, hdr, c, i)
            &&& coarser(v, t, t1, hdr)
            &&& forall|b: int|
                0 <= b < block_count(hdr) ==> #[trigger] block_state(v, t1, hdr, b) == if b / 256
                    == c && b % 256 / 16 == i {
                    Ok::<u8, FsError>(fmt::cell_at(sub, b % 16))
                } else {
                    block_state(v, t, hdr, b)
                }
        }),
{
    let l = held(v, t, hdr, c, i);
    let t1 = roottable::record_to(v, t, hdr.ag_num, l, sub).0;
    lemma_record_change(v, t, hdr, l, sub);
    assert forall|d: int, j: int| #[trigger] holds(v, t1, hdr, d, j) == holds(v, t, hdr, d, j) && (
    holds(v, t, hdr, d, j) ==> held(v, t1, hdr, d, j) == held(v, t, hdr, d, j)) by {
        if 0 <= d < allocator::cells_in(hdr) {
            assert(roottable::cell_ref(v, t1, hdr, d) == roottable::cell_ref(v, t, hdr, d));
            if holds(v, t, hdr, d, 16) {
                assert(held(v, t, hdr, d, 16) != l);
                assert(cell_rec(v, t1, hdr, d) == cell_rec(v, t, hdr, d));
            }
        }
    }
    assert(coarser(v, t, t1, hdr)) by {
        assert forall|d: int| #[trigger] holds(v, t1, hdr, d, 16) implies fills_none(
            cell_rec(v, t, hdr, d),
            cell_rec(v, t1, hdr, d),
        ) by {
            assert(holds(v, t, hdr, d, 16));
            assert(held(v, t, hdr, d, 16) != l);
            assert(cell_rec(v, t1, hdr, d) == cell_rec(v, t, hdr, d));
        }
        lemma_coarser(v, t, t1, hdr);
    }
    assert forall|d: int, j: int| d != -1 && #[trigger] holds(v, t1, hdr, d, j) implies good_ref(
        v,
        t1,
        hdr,
        held(v, t1, hdr, d, j),
    ) by {
        assert(holds(v, t, hdr, d, j));
    }
    assert forall|b: int| 0 <= b < block_count(hdr) implies #[trigger] block_state(v, t1, hdr, b)
        == if b / 256 == c && b % 256 / 16 == i {
        Ok::<u8, FsError>(fmt::cell_at(sub, b % 16))
    } else {
        block_state(v, t, hdr, b)
    } by {
        let d = b / 256;
        let j = b % 256 / 16;
        assert(roottable::cell_of(v, t1, hdr, d) == roottable::cell_of(v, t, hdr, d));
        assert(roottable::cell_ref(v, t1, hdr, d) == roottable::cell_ref(v, t, hdr, d));
        if holds(v, t, hdr, d, 16) {
            assert(held(v, t, hdr, d, 16) != l);
            if holds(v, t, hdr, d, j) {
                assert(good_ref(v, t, hdr, held(v, t, hdr, d, j)));
                assert(held(v, t, hdr, d, j) == l ==> d == c && j == i);
            }
        }
    }
}

/// It keeps the record of the cell around the child.
pub proof fn lemma_sub_keeps(v: Vol, t: Map<u64, Seq<u8>>, hdr: AgHeader, c: int, i: int, sub: Seq<u8>)
    requires
        sound(v, t, hdr),
        holds(v, t, hdr, c, i),
        i < 16,
        sub.len() == 128,
        roottable::record_to(v, t, hdr.ag_num, held(v, t, hdr, c, i), sub).1 is Ok,
    ensures
        ({
            let t1 = roottable::record_to(v, t, hdr.ag_num, held(v, t, hdr, c, i), sub).0;
            &&& holds(v, t1, hdr, c, 16)
            &&& held(v, t1, hdr, c, 16) == held(v, t, hdr, c, 16)
        }),
{
    assert(good_ref(v, t, hdr, held(v, t, hdr, c, i)));
    lemma_record_change(v, t, hdr, held(v, t, hdr, c, i), sub);
}

/// Every child that `rec` has refined is refined in `old_rec` too, by the same
/// record.
pub open spec fn refines_less(old_rec: Seq<u8>, rec: Seq<u8>) -> bool {
    forall|j: int|
        0 <= j < 16 && #[trigger] fmt::cell_at(rec, j) == CELL_REFINED ==> fmt::cell_at(old_rec, j)
            == CELL_REFINED && record::ref_of(rec, j) == record::ref_of(old_rec, j)
}

/// Replacing the record of a refined cell by one that refines no more: the
/// tables stay sound, and only blocks that the record itself states change.
pub proof fn lemma_rec_change(v: Vol, t: Map<u64, Seq<u8>>, hdr: AgHeader, c: int, rec: Seq<u8>)
    requires
        sound(v, t, hdr),
        holds(v, t, hdr, c, 16),
        rec.len() == 128,
        refines_less(cell_rec(v, t, hdr, c), rec),
        roottable::record_to(v, t, hdr.ag_num, held(v, t, hdr, c, 16), rec).1 is Ok,
    ensures
        ({
            let t1 = roottable::record_to(v, t, hdr.ag_num, held(v, t, hdr, c, 16), rec).0;
            &&& sound(v, t1, hdr)
            &&& holds(v, t1, hdr, c, 16)
            &&& held(v, t1, hdr, c, 16) == held(v, t, hdr, c, 16)
            &&& cell_rec(v, t1, hdr, c) == rec
            &&& fills_none(cell_rec(v, t, hdr, c), rec) ==> coarser(v, t, t1, hdr)
            &&& forall|b: int|
                0 <= b < block_count(hdr) ==> #[trigger] block_state(v, t1, hdr, b) == if b / 256
                    == c && fmt::cell_at(rec, b % 256 / 16) != CELL_REFINED {
                    Ok::<u8, FsError>(fmt::cell_at(rec, b % 256 / 16))
                } else {
                    block_state(v, t, hdr, b)
                }
        }),
{
    let l = held(v, t, hdr, c, 16);
    let t1 = roottable::record_to(v, t, hdr.ag_num, l, rec).0;
    assert(good_ref(v, t, hdr, l));
    lemma_record_change(v, t, hdr, l, rec);
    lemma_rec_put(v, t, t1, hdr, c, rec);
    lemma_fewer(v, t, t1, hdr);
    if fills_none(cell_rec(v, t, hdr, c), rec) {
        lemma_rec_coarser(v, t, t1, hdr, c, rec);
    }
}

/// The cells as they were, and the record of cell `c` replaced.
pub open spec fn rec_put(
    v: Vol,
    t: Map<u64, Seq<u8>>,
    t1: Map<u64, Seq<u8>>,
    hdr: AgHeader,
    c: int,
    rec: Seq<u8>,
) -> bool {
    &&& base_sound(v, t1, hdr)
    &&& forall|d: int|
        0 <= d < allocator::cells_in(hdr) ==> #[trigger] roottable::cell_of(v, t1, hdr, d)
            == roottable::cell_of(v, t, hdr, d)
    &&& forall|d: int|
        0 <= d < allocator::cells_in(hdr) ==> #[trigger] roottable::cell_ref(v, t1, hdr, d)
            == roottable::cell_ref(v, t, hdr, d)
    &&& roottable::record_of(v, t1, hdr.ag_num, held(v, t, hdr, c, 16)) == Ok::<
        Seq<u8>,
        FsError,
    >(rec)
    &&& forall|d: int, j: int| #[trigger]
        holds(v, t, hdr, d, j) && (d != c || (j < 16 && fmt::cell_at(rec, j) == CELL_REFINED)) ==> {
            let q = held(v, t, hdr, d, j);
            &&& good_ref(v, t1, hdr, q)
            &&& roottable::record_of(v, t1, hdr.ag_num, q) == roottable::record_of(
                v,
                t,
                hdr.ag_num,
                q,
            )
        }
    &&& good_ref(v, t1, hdr, held(v, t, hdr, c, 16))
}

/// Fewer are refined, by the same records, which are still good.
pub open spec fn fewer(v: Vol, t: Map<u64, Seq<u8>>, t1: Map<u64, Seq<u8>>, hdr: AgHeader) -> bool {
    &&& base_sound(v, t1, hdr)
    &&& forall|d: int, j: int| #[trigger]
        holds(v, t1, hdr, d, j) ==> {
            &&& holds(v, t, hdr, d, j)
            &&& held(v, t1, hdr, d, j) == held(v, t, hdr, d, j)
            &&& good_ref(v, t1, hdr, held(v, t, hdr, d, j))
        }
}

/// Tables with fewer refined are sound where those with more were.
proof fn lemma_fewer(v: Vol, t: Map<u64, Seq<u8>>, t1: Map<u64, Seq<u8>>, hdr: AgHeader)
    requires
        sound(v, t, hdr),
        fewer(v, t, t1, hdr),
    ensures
        sound(v, t1, hdr),
{
}

/// What a replaced record does to what is refined and to the blocks.
#[verifier::rlimit(40)]
proof fn lemma_rec_put(
    v: Vol,
    t: Map<u64, Seq<u8>>,
    t1: Map<u64, Seq<u8>>,
    hdr: AgHeader,
    c: int,
    rec: Seq<u8>,
)
    requires
        sound(v, t, hdr),
        holds(v, t, hdr, c, 16),
        refines_less(cell_rec(v, t, hdr, c), rec),
        rec_put(v, t, t1, hdr, c, rec),
    ensures
        fewer(v, t, t1, hdr),
        holds(v, t1, hdr, c, 16),
        held(v, t1, hdr, c, 16) == held(v, t, hdr, c, 16),
        cell_rec(v, t1, hdr, c) == rec,
        forall|b: int|
            0 <= b < block_count(hdr) ==> #[trigger] block_state(v, t1, hdr, b) == if b / 256 == c
                && fmt::cell_at(rec, b % 256 / 16) != CELL_REFINED {
                Ok::<u8, FsError>(fmt::cell_at(rec, b % 256 / 16))
            } else {
                block_state(v, t, hdr, b)
            },
{
    let l = held(v, t, hdr, c, 16);
    assert forall|d: int, j: int| #[trigger] holds(v, t1, hdr, d, j) implies {
        &&& holds(v, t, hdr, d, j)
        &&& held(v, t1, hdr, d, j) == held(v, t, hdr, d, j)
        &&& good_ref(v, t1, hdr, held(v, t, hdr, d, j))
    } by {
        assert(roottable::cell_of(v, t1, hdr, d) == roottable::cell_of(v, t, hdr, d));
        assert(roottable::cell_ref(v, t1, hdr, d) == roottable::cell_ref(v, t, hdr, d));
        assert(holds(v, t, hdr, d, 16));
        if d == c {
            assert(cell_rec(v, t1, hdr, d) == rec);
            if j < 16 {
                assert(holds(v, t, hdr, c, j));
            }
        } else {
            assert(cell_rec(v, t1, hdr, d) == cell_rec(v, t, hdr, d));
            assert(holds(v, t, hdr, d, j));
        }
    }
    assert forall|b: int| 0 <= b < block_count(hdr) implies #[trigger] block_state(v, t1, hdr, b)
        == if b / 256 == c && fmt::cell_at(rec, b % 256 / 16) != CELL_REFINED {
        Ok::<u8, FsError>(fmt::cell_at(rec, b % 256 / 16))
    } else {
        block_state(v, t, hdr, b)
    } by {
        let d = b / 256;
        let j = b % 256 / 16;
        assert(roottable::cell_of(v, t1, hdr, d) == roottable::cell_of(v, t, hdr, d));
        assert(roottable::cell_ref(v, t1, hdr, d) == roottable::cell_ref(v, t, hdr, d));
        if holds(v, t, hdr, d, 16) {
            assert(good_ref(v, t, hdr, held(v, t, hdr, d, 16)));
            if d == c {
                if fmt::cell_at(rec, j) == CELL_REFINED {
                    assert(holds(v, t, hdr, c, j));
                }
            } else {
                assert(cell_rec(v, t1, hdr, d) == cell_rec(v, t, hdr, d));
                if fmt::cell_at(cell_rec(v, t, hdr, d), j) == CELL_REFINED {
                    assert(holds(v, t, hdr, d, j));
                }
            }
        }
    }
}

// --- cells around a block -----------------------------------------------------

/// Part `j` of refined cell `c` is in use as a whole.
pub open spec fn part_full(v: Vol, t: Map<u64, Seq<u8>>, hdr: AgHeader, c: int, j: int) -> bool {
    &&& 0 <= j < 16
    &&& holds(v, t, hdr, c, 16)
    &&& fmt::cell_at(cell_rec(v, t, hdr, c), j) == CELL_FULL
}

/// From `t` to `t1` nothing is refined anew, and no whole cell or part came in use.
#[verifier::opaque]
pub open spec fn coarser(v: Vol, t: Map<u64, Seq<u8>>, t1: Map<u64, Seq<u8>>, hdr: AgHeader) -> bool {
    &&& forall|c: int|
        0 <= c < allocator::cells_in(hdr) && #[trigger] roottable::cell_of(v, t1, hdr, c) == Ok::<
            u8,
            FsError,
        >(CELL_FULL) ==> roottable::cell_of(v, t, hdr, c) == Ok::<u8, FsError>(CELL_FULL)
    &&& forall|c: int, j: int| #[trigger]
        part_full(v, t1, hdr, c, j) ==> part_full(v, t, hdr, c, j)
    &&& forall|c: int, j: int| #[trigger] holds(v, t1, hdr, c, j) ==> holds(v, t, hdr, c, j)
}

pub proof fn lemma_coarser_more(
    v: Vol,
    t: Map<u64, Seq<u8>>,
    t1: Map<u64, Seq<u8>>,
    t2: Map<u64, Seq<u8>>,
    hdr: AgHeader,
)
    requires
        coarser(v, t, t1, hdr),
        coarser(v, t1, t2, hdr),
    ensures
        coarser(v, t, t2, hdr),
{
    reveal(coarser);
    assert forall|c: int|
        0 <= c < allocator::cells_in(hdr) && #[trigger] roottable::cell_of(v, t2, hdr, c) == Ok::<
            u8,
            FsError,
        >(CELL_FULL) implies roottable::cell_of(v, t, hdr, c) == Ok::<u8, FsError>(CELL_FULL) by {
        assert(roottable::cell_of(v, t1, hdr, c) == Ok::<u8, FsError>(CELL_FULL));
    }
    assert forall|c: int, j: int| #[trigger] part_full(v, t2, hdr, c, j) implies part_full(
        v,
        t,
        hdr,
        c,
        j,
    ) by {
        assert(part_full(v, t1, hdr, c, j));
    }
    assert forall|c: int, j: int| #[trigger] holds(v, t2, hdr, c, j) implies holds(
        v,
        t,
        hdr,
        c,
        j,
    ) by {
        assert(holds(v, t1, hdr, c, j));
    }
}

/// Tables in which fewer are refined are coarser if the cells and records that stay
/// have nothing new in use.
proof fn lemma_coarser(v: Vol, t: Map<u64, Seq<u8>>, t1: Map<u64, Seq<u8>>, hdr: AgHeader)
    requires
        forall|c: int|
            0 <= c < allocator::cells_in(hdr) && #[trigger] roottable::cell_of(v, t1, hdr, c)
                == Ok::<u8, FsError>(CELL_FULL) ==> roottable::cell_of(v, t, hdr, c) == Ok::<
                u8,
                FsError,
            >(CELL_FULL),
        forall|d: int, j: int| #[trigger] holds(v, t1, hdr, d, j) ==> holds(v, t, hdr, d, j),
        forall|d: int| #[trigger]
            holds(v, t1, hdr, d, 16) ==> fills_none(
                cell_rec(v, t, hdr, d),
                cell_rec(v, t1, hdr, d),
            ),
    ensures
        coarser(v, t, t1, hdr),
{
    reveal(coarser);
    assert forall|c: int, j: int| #[trigger] part_full(v, t1, hdr, c, j) implies part_full(
        v,
        t,
        hdr,
        c,
        j,
    ) by {
        assert(holds(v, t1, hdr, c, 16));
        assert(fmt::cell_at(cell_rec(v, t1, hdr, c), j) == CELL_FULL);
    }
}

/// Every child that `rec` has in use as a whole is so in `old_rec` too.
pub open spec fn fills_none(old_rec: Seq<u8>, rec: Seq<u8>) -> bool {
    forall|j: int|
        0 <= j < 16 && #[trigger] fmt::cell_at(rec, j) == CELL_FULL ==> fmt::cell_at(old_rec, j)
            == CELL_FULL
}

/// A replaced record in which nothing came in use.
proof fn lemma_rec_coarser(
    v: Vol,
    t: Map<u64, Seq<u8>>,
    t1: Map<u64, Seq<u8>>,
    hdr: AgHeader,
    c: int,
    rec: Seq<u8>,
)
    requires
        rec_put(v, t, t1, hdr, c, rec),
        fewer(v, t, t1, hdr),
        cell_rec(v, t1, hdr, c) == rec,
        fills_none(cell_rec(v, t, hdr, c), rec),
    ensures
        coarser(v, t, t1, hdr),
{
    assert forall|d: int| #[trigger] holds(v, t1, hdr, d, 16) implies fills_none(
        cell_rec(v, t, hdr, d),
        cell_rec(v, t1, hdr, d),
    ) by {
        assert(holds(v, t, hdr, d, 16));
        if d != c {
            assert(roottable::cell_ref(v, t1, hdr, d) == roottable::cell_ref(v, t, hdr, d));
            assert(cell_rec(v, t1, hdr, d) == cell_rec(v, t, hdr, d));
        }
    }
    lemma_coarser(v, t, t1, hdr);
}

/// How many blocks the smallest cell around block `b` has.
#[verifier::opaque]
pub open spec fn unit(v: Vol, t: Map<u64, Seq<u8>>, hdr: AgHeader, b: int) -> int {
    if !holds(v, t, hdr, b / 256, 16) {
        256
    } else if !holds(v, t, hdr, b / 256, b % 256 / 16) {
        16
    } else {
        1
    }
}

/// Where that cell ends.
#[verifier::opaque]
pub open spec fn unit_end(v: Vol, t: Map<u64, Seq<u8>>, hdr: AgHeader, b: int) -> int {
    (b / unit(v, t, hdr, b) + 1) * unit(v, t, hdr, b)
}

/// Coarser tables have the same cell around a block that is in use.
pub proof fn lemma_unit_kept(v: Vol, t: Map<u64, Seq<u8>>, t1: Map<u64, Seq<u8>>, hdr: AgHeader, b: int)
    requires
        coarser(v, t, t1, hdr),
        0 <= b < block_count(hdr),
        block_state(v, t1, hdr, b) == Ok::<u8, FsError>(CELL_FULL),
    ensures
        unit(v, t1, hdr, b) == unit(v, t, hdr, b),
{
    reveal(unit);
    reveal(coarser);
    let c = b / 256;
    let j = b % 256 / 16;
    if holds(v, t1, hdr, c, 16) {
        assert(holds(v, t, hdr, c, 16));
        if !holds(v, t1, hdr, c, j) {
            assert(part_full(v, t1, hdr, c, j));
            assert(part_full(v, t, hdr, c, j));
        }
    } else {
        assert(roottable::cell_of(v, t1, hdr, c) == Ok::<u8, FsError>(CELL_FULL));
    }
}

/// The blocks of one such cell have the same.
pub proof fn lemma_unit_even(v: Vol, t: Map<u64, Seq<u8>>, hdr: AgHeader, b: int, x: int)
    requires
        0 <= b,
        b / unit(v, t, hdr, b) == x / unit(v, t, hdr, b),
    ensures
        unit(v, t, hdr, x) == unit(v, t, hdr, b),
        unit_end(v, t, hdr, x) == unit_end(v, t, hdr, b),
        unit(v, t, hdr, b) == 1 || unit(v, t, hdr, b) == 16 || unit(v, t, hdr, b) == 256,
{
    reveal(unit);
    reveal(unit_end);
    let u = unit(v, t, hdr, b);
    if u == 256 {
        assert(b / 256 == x / 256);
    } else if u == 16 {
        assert(b / 256 == x / 256 && b % 256 / 16 == x % 256 / 16);
    } else {
        assert(b == x);
    }
}

/// Tables of the same form have the same cells around each block.
pub proof fn lemma_unit_form(v: Vol, t: Map<u64, Seq<u8>>, t1: Map<u64, Seq<u8>>, hdr: AgHeader, b: int)
    requires
        forms_kept(v, t, t1, hdr),
        0 <= b < block_count(hdr),
    ensures
        unit(v, t1, hdr, b) == unit(v, t, hdr, b),
{
    reveal(unit);
    reveal(forms_kept);
    let c = b / 256;
    let j = b % 256 / 16;
    assert(roottable::cell_of(v, t1, hdr, c) == roottable::cell_of(v, t, hdr, c));
    if holds(v, t, hdr, c, 16) {
        assert(holds(v, t1, hdr, c, 16));
        assert(cell_rec(v, t1, hdr, c) == cell_rec(v, t, hdr, c));
    }
}

/// Tables of the same form are as coarse.
pub proof fn lemma_form_coarser(v: Vol, t: Map<u64, Seq<u8>>, t1: Map<u64, Seq<u8>>, hdr: AgHeader)
    requires
        forms_kept(v, t, t1, hdr),
    ensures
        coarser(v, t, t1, hdr),
{
    reveal(forms_kept);
    assert forall|d: int, j: int| #[trigger] holds(v, t1, hdr, d, j) implies holds(
        v,
        t,
        hdr,
        d,
        j,
    ) by {
        assert(roottable::cell_of(v, t1, hdr, d) == roottable::cell_of(v, t, hdr, d));
        assert(holds(v, t, hdr, d, 16));
        assert(cell_rec(v, t1, hdr, d) == cell_rec(v, t, hdr, d));
    }
    assert forall|d: int| #[trigger] holds(v, t1, hdr, d, 16) implies fills_none(
        cell_rec(v, t, hdr, d),
        cell_rec(v, t1, hdr, d),
    ) by {
        assert(holds(v, t, hdr, d, 16));
        assert(cell_rec(v, t1, hdr, d) == cell_rec(v, t, hdr, d));
    }
    lemma_coarser(v, t, t1, hdr);
}

/// Headers that place the tables alike show the same cells.
pub proof fn lemma_unit_place(v: Vol, t: Map<u64, Seq<u8>>, a: AgHeader, b: AgHeader, x: int)
    requires
        same_place(a, b),
    ensures
        unit(v, t, b, x) == unit(v, t, a, x),
        unit_end(v, t, b, x) == unit_end(v, t, a, x),
{
    reveal(unit);
    reveal(unit_end);
    lemma_same_place(v, t, a, b);
}

pub proof fn lemma_coarser_place(
    v: Vol,
    t: Map<u64, Seq<u8>>,
    t1: Map<u64, Seq<u8>>,
    a: AgHeader,
    b: AgHeader,
)
    requires
        same_place(a, b),
        coarser(v, t, t1, a),
    ensures
        coarser(v, t, t1, b),
{
    reveal(coarser);
    lemma_same_place(v, t, a, b);
    lemma_same_place(v, t1, a, b);
    assert forall|c: int, j: int| #[trigger] part_full(v, t1, b, c, j) implies part_full(
        v,
        t,
        b,
        c,
        j,
    ) by {
        assert(part_full(v, t1, a, c, j));
        assert(part_full(v, t, a, c, j));
    }
    assert forall|c: int, j: int| #[trigger] holds(v, t1, b, c, j) implies holds(v, t, b, c, j) by {
        assert(holds(v, t1, a, c, j));
        assert(holds(v, t, a, c, j));
    }
}

// --- refining -----------------------------------------------------------------

/// States of a record and its references do not meet.
pub proof fn lemma_rec_fields(rec: Seq<u8>, i: int, st: u8, r: (u32, u16))
    requires
        rec.len() == 128,
        0 <= i < 16,
        st < 4,
    ensures
        fmt::cell_put(rec, i, st).len() == 128,
        record::with_ref(rec, i, r).len() == 128,
        forall|j: int|
            0 <= j < 16 ==> #[trigger] fmt::cell_at(fmt::cell_put(rec, i, st), j) == if j == i {
                st
            } else {
                fmt::cell_at(rec, j)
            },
        forall|j: int|
            0 <= j < 16 ==> #[trigger] record::ref_of(fmt::cell_put(rec, i, st), j)
                == record::ref_of(rec, j),
        forall|j: int|
            0 <= j < 16 ==> #[trigger] fmt::cell_at(record::with_ref(rec, i, r), j)
                == fmt::cell_at(rec, j),
        forall|j: int|
            0 <= j < 16 ==> #[trigger] record::ref_of(record::with_ref(rec, i, r), j) == if j
                == i {
                r
            } else {
                record::ref_of(rec, j)
            },
{
    let p = fmt::cell_put(rec, i, st);
    let w = record::with_ref(rec, i, r);
    assert forall|j: int| 0 <= j < 16 implies #[trigger] fmt::cell_at(p, j) == if j == i {
        st
    } else {
        fmt::cell_at(rec, j)
    } by {
        fmt::law_cell_put(rec, i, j, st);
    }
    assert forall|j: int| 0 <= j < 16 implies #[trigger] record::ref_of(w, j) == if j == i {
        r
    } else {
        record::ref_of(rec, j)
    } by {
        if j == i {
            fmt::lemma_u32_of(w, 4 + 6 * i, r.0);
            fmt::lemma_u16_of(w, 8 + 6 * i, r.1);
        }
    }
}

/// Refining the free child `i` of a refined cell: the tables stay sound, the
/// child has an empty record, and no block changes state but those of a free
/// cell that may have become an arena.
#[verifier::rlimit(40)]
pub proof fn lemma_refine1(v: Vol, s: St, c: int, i: int)
    requires
        sound(v, s.t, s.hdr),
        holds(v, s.t, s.hdr, c, 16),
        0 <= i < 16,
        fmt::cell_at(cell_rec(v, s.t, s.hdr, c), i) == CELL_FREE,
    ensures
        ({
            let (s1, r1) = allocator::refine1(v, s, held(v, s.t, s.hdr, c, 16), i);
            r1 matches Ok(r) ==> {
                &&& same_place(s.hdr, s1.hdr)
                &&& sound(v, s1.t, s1.hdr)
                &&& holds(v, s1.t, s1.hdr, c, i)
                &&& held(v, s1.t, s1.hdr, c, i) == r
                &&& roottable::record_of(v, s1.t, s1.hdr.ag_num, r) == Ok::<Seq<u8>, FsError>(
                    fmt::zeros(128),
                )
                &&& grown(v, s.t, s1.t, s.hdr, c)
            }
        }),
{
    let (hdr, ag) = (s.hdr, s.hdr.ag_num);
    let l = held(v, s.t, hdr, c, 16);
    let (s1, r1) = allocator::refine1(v, s, l, i);
    if r1 is Ok {
        let r = r1->Ok_0;
        let sa = allocator::claim_rec(v, s).0;
        let rec = cell_rec(v, s.t, hdr, c);
        let rec1 = fmt::cell_put(rec, i, CELL_REFINED);
        let rec2 = record::with_ref(rec1, i, r);
        lemma_claim(v, s, -1);
        lemma_kept_holds(v, s.t, sa.t, hdr, -1);
        lemma_same_place(v, sa.t, hdr, sa.hdr);
        assert(good_ref(v, s.t, hdr, l));
        assert(holds(v, sa.t, hdr, c, 16) && held(v, sa.t, hdr, c, 16) == l);
        assert(holds(v, sa.t, sa.hdr, c, 16) && held(v, sa.t, sa.hdr, c, 16) == l);
        assert(cell_rec(v, sa.t, hdr, c) == rec);
        lemma_record_len(v, s.t, hdr, l);
        lemma_rec_fields(rec, i, CELL_REFINED, r);
        lemma_rec_fields(rec1, i, CELL_REFINED, r);
        lemma_record_change(v, sa.t, sa.hdr, l, rec2);
        lemma_same_place(v, s1.t, hdr, s1.hdr);
        lemma_refined_child(v, sa.t, s1.t, sa.hdr, c, i, rec2, r);
        assert forall|b: int| 0 <= b < block_count(hdr) implies #[trigger] grown_at(
            v,
            s.t,
            s1.t,
            hdr,
            c,
            b,
        ) by {
            lemma_kept_states(v, s.t, sa.t, hdr, -1, b);
            lemma_state_place(v, s1.t, hdr, s1.hdr, b);
            lemma_state_place(v, sa.t, hdr, s1.hdr, b);
            assert(block_state(v, s1.t, s1.hdr, b) == block_state(v, sa.t, s1.hdr, b));
        }
    }
}

/// Block `b` keeps its state, or is in a free cell other than `c` that is
/// reserved now.
pub open spec fn grown_at(
    v: Vol,
    t: Map<u64, Seq<u8>>,
    t1: Map<u64, Seq<u8>>,
    hdr: AgHeader,
    c: int,
    b: int,
) -> bool {
    block_state(v, t1, hdr, b) == block_state(v, t, hdr, b) || {
        &&& b / 256 != c
        &&& block_state(v, t, hdr, b) == Ok::<u8, FsError>(CELL_FREE)
        &&& block_state(v, t1, hdr, b) == Ok::<u8, FsError>(CELL_RSVD)
    }
}

/// No block changes state but those of free cells other than `c` that are
/// reserved now.
pub open spec fn grown(v: Vol, t: Map<u64, Seq<u8>>, t1: Map<u64, Seq<u8>>, hdr: AgHeader, c: int) -> bool {
    forall|b: int| 0 <= b < block_count(hdr) ==> #[trigger] grown_at(v, t, t1, hdr, c, b)
}

/// A record is as long as records are.
pub proof fn lemma_record_len(v: Vol, t: Map<u64, Seq<u8>>, hdr: AgHeader, l: (u32, u16))
    requires
        vol::txn_ok(t, v.bs),
        roottable::record_of(v, t, hdr.ag_num, l) is Ok,
    ensures
        roottable::record_of(v, t, hdr.ag_num, l)->Ok_0.len() == 128,
{
    vol::lemma_rd_len(v, t, fmt::addr_of(hdr.ag_num, l.0));
}

/// Headers that place the tables alike give blocks the same state.
pub proof fn lemma_state_place(v: Vol, t: Map<u64, Seq<u8>>, a: AgHeader, b: AgHeader, x: int)
    requires
        same_place(a, b),
    ensures
        block_state(v, t, b, x) == block_state(v, t, a, x),
{
    lemma_same_place(v, t, a, b);
}

/// A child that was free, refined by a new record.
#[verifier::rlimit(40)]
proof fn lemma_refined_child(
    v: Vol,
    t: Map<u64, Seq<u8>>,
    t1: Map<u64, Seq<u8>>,
    hdr: AgHeader,
    c: int,
    i: int,
    rec: Seq<u8>,
    r: (u32, u16),
)
    requires
        sound(v, t, hdr),
        holds(v, t, hdr, c, 16),
        0 <= i < 16,
        fmt::cell_at(cell_rec(v, t, hdr, c), i) == CELL_FREE,
        roottable::record_to(v, t, hdr.ag_num, held(v, t, hdr, c, 16), rec) == (
            t1,
            Ok::<(), FsError>(()),
        ),
        rec.len() == 128,
        forall|j: int|
            0 <= j < 16 ==> #[trigger] fmt::cell_at(rec, j) == if j == i {
                CELL_REFINED
            } else {
                fmt::cell_at(cell_rec(v, t, hdr, c), j)
            },
        forall|j: int|
            0 <= j < 16 && j != i ==> #[trigger] record::ref_of(rec, j) == record::ref_of(
                cell_rec(v, t, hdr, c),
                j,
            ),
        record::ref_of(rec, i) == r,
        good_ref(v, t, hdr, r),
        roottable::record_of(v, t, hdr.ag_num, r) == Ok::<Seq<u8>, FsError>(fmt::zeros(128)),
        forall|d: int, j: int| #[trigger]
            holds(v, t, hdr, d, j) ==> held(v, t, hdr, d, j) != r,
    ensures
        sound(v, t1, hdr),
        holds(v, t1, hdr, c, i),
        held(v, t1, hdr, c, i) == r,
        roottable::record_of(v, t1, hdr.ag_num, r) == Ok::<Seq<u8>, FsError>(fmt::zeros(128)),
        forall|b: int|
            0 <= b < block_count(hdr) ==> #[trigger] block_state(v, t1, hdr, b) == block_state(
                v,
                t,
                hdr,
                b,
            ),
{
    let l = held(v, t, hdr, c, 16);
    let old_rec = cell_rec(v, t, hdr, c);
    assert(good_ref(v, t, hdr, l));
    lemma_record_change(v, t, hdr, l, rec);
    assert forall|d: int, j: int|
        #![trigger holds(v, t1, hdr, d, j)]
        {
            &&& holds(v, t1, hdr, d, j) == (holds(v, t, hdr, d, j) || (d == c && j == i))
            &&& holds(v, t, hdr, d, j) ==> held(v, t1, hdr, d, j) == held(v, t, hdr, d, j)
        } by {
        if 0 <= d < allocator::cells_in(hdr) {
            assert(roottable::cell_of(v, t1, hdr, d) == roottable::cell_of(v, t, hdr, d));
            assert(roottable::cell_ref(v, t1, hdr, d) == roottable::cell_ref(v, t, hdr, d));
            if holds(v, t, hdr, d, 16) && d != c {
                assert(held(v, t, hdr, d, 16) != l);
                assert(cell_rec(v, t1, hdr, d) == cell_rec(v, t, hdr, d));
            }
        }
    }
    assert(held(v, t1, hdr, c, i) == r);
    assert forall|d: int, j: int| d != -1 && #[trigger] holds(v, t1, hdr, d, j) implies good_ref(
        v,
        t1,
        hdr,
        held(v, t1, hdr, d, j),
    ) by {
        if !(d == c && j == i) {
            assert(holds(v, t, hdr, d, j));
        }
    }
    assert forall|d: int, j: int, e: int, k: int|
        d != -1 && e != -1 && #[trigger] holds(v, t1, hdr, d, j) && #[trigger] holds(
            v,
            t1,
            hdr,
            e,
            k,
        ) && held(v, t1, hdr, d, j) == held(v, t1, hdr, e, k) implies d == e && j == k by {
        if !(d == c && j == i) {
            assert(holds(v, t, hdr, d, j));
        }
        if !(e == c && k == i) {
            assert(holds(v, t, hdr, e, k));
        }
    }
    assert forall|b: int| 0 <= b < block_count(hdr) implies #[trigger] block_state(v, t1, hdr, b)
        == block_state(v, t, hdr, b) by {
        let d = b / 256;
        let j = b % 256 / 16;
        assert(roottable::cell_of(v, t1, hdr, d) == roottable::cell_of(v, t, hdr, d));
        assert(roottable::cell_ref(v, t1, hdr, d) == roottable::cell_ref(v, t, hdr, d));
        if holds(v, t, hdr, d, 16) {
            assert(good_ref(v, t, hdr, held(v, t, hdr, d, 16)));
            if d == c && j == i {
                lemma_empty_record(b % 16);
            } else if holds(v, t, hdr, d, j) {
                assert(good_ref(v, t, hdr, held(v, t, hdr, d, j)));
                assert(held(v, t, hdr, d, j) != l);
            }
        }
    }
}

/// Turning a free cell into a refined one, its reference not set yet.
pub proof fn lemma_flip(v: Vol, t: Map<u64, Seq<u8>>, hdr: AgHeader, c: int)
    requires
        sound(v, t, hdr),
        0 <= c < allocator::cells_in(hdr),
        roottable::cell_of(v, t, hdr, c) == Ok::<u8, FsError>(CELL_FREE),
        roottable::cell_to(v, t, hdr, c, CELL_REFINED).1 is Ok,
    ensures
        ({
            let t1 = roottable::cell_to(v, t, hdr, c, CELL_REFINED).0;
            &&& sound_but(v, t1, hdr, c)
            &&& roottable::cell_of(v, t1, hdr, c) == Ok::<u8, FsError>(CELL_REFINED)
            &&& forall|b: int|
                0 <= b < block_count(hdr) && b / 256 != c ==> #[trigger] block_state(v, t1, hdr, b)
                    == block_state(v, t, hdr, b)
        }),
{
    let t1 = roottable::cell_to(v, t, hdr, c, CELL_REFINED).0;
    lemma_cell_to(v, t, hdr, c, CELL_REFINED);
    lemma_cell_change(v, t, hdr, c, CELL_REFINED, -1);
    assert forall|d: int, j: int| d != c implies {
        &&& #[trigger] holds(v, t1, hdr, d, j) == holds(v, t, hdr, d, j)
        &&& holds(v, t, hdr, d, j) ==> held(v, t1, hdr, d, j) == held(v, t, hdr, d, j)
    } by {
        if holds(v, t, hdr, d, 16) {
            assert(good_ref(v, t, hdr, held(v, t, hdr, d, 16)));
            assert(cell_rec(v, t1, hdr, d) == cell_rec(v, t, hdr, d));
        }
    }
    assert forall|d: int, j: int| d != c && #[trigger] holds(v, t1, hdr, d, j) implies good_ref(
        v,
        t1,
        hdr,
        held(v, t1, hdr, d, j),
    ) by {
        assert(holds(v, t, hdr, d, j));
    }
    assert forall|b: int| 0 <= b < block_count(hdr) && b / 256 != c implies #[trigger] block_state(
        v,
        t1,
        hdr,
        b,
    ) == block_state(v, t, hdr, b) by {
        lemma_same_cell_state(v, t, t1, hdr, b);
    }
}

/// A block's state rests on its cell, the cell's reference and the records
/// that are held there.
proof fn lemma_same_cell_state(
    v: Vol,
    t: Map<u64, Seq<u8>>,
    t1: Map<u64, Seq<u8>>,
    hdr: AgHeader,
    b: int,
)
    requires
        0 <= b < block_count(hdr),
        roottable::cell_of(v, t1, hdr, b / 256) == roottable::cell_of(v, t, hdr, b / 256),
        roottable::cell_ref(v, t1, hdr, b / 256) == roottable::cell_ref(v, t, hdr, b / 256),
        forall|j: int|
            #![trigger holds(v, t, hdr, b / 256, j)]
            holds(v, t, hdr, b / 256, j) ==> {
                let q = held(v, t, hdr, b / 256, j);
                &&& roottable::record_of(v, t, hdr.ag_num, q) is Ok
                &&& roottable::record_of(v, t1, hdr.ag_num, q) == roottable::record_of(
                    v,
                    t,
                    hdr.ag_num,
                    q,
                )
            },
    ensures
        block_state(v, t1, hdr, b) == block_state(v, t, hdr, b),
{
    let c = b / 256;
    let i = b % 256 / 16;
    if roottable::cell_of(v, t, hdr, c) == Ok::<u8, FsError>(CELL_REFINED) {
        assert(holds(v, t, hdr, c, 16));
        if fmt::cell_at(cell_rec(v, t, hdr, c), i) == CELL_REFINED {
            assert(holds(v, t, hdr, c, i));
        }
    }
}

/// A refined cell, left out of the account so far, that gets a new, empty
/// record.
#[verifier::rlimit(40)]
proof fn lemma_join(v: Vol, t: Map<u64, Seq<u8>>, hdr: AgHeader, c: int, r: (u32, u16))
    requires
        sound_but(v, t, hdr, c),
        0 <= c < allocator::cells_in(hdr),
        roottable::cell_of(v, t, hdr, c) == Ok::<u8, FsError>(CELL_REFINED),
        good_ref(v, t, hdr, r),
        roottable::record_of(v, t, hdr.ag_num, r) == Ok::<Seq<u8>, FsError>(fmt::zeros(128)),
        forall|d: int, j: int|
            d != c && #[trigger] holds(v, t, hdr, d, j) ==> held(v, t, hdr, d, j) != r,
        roottable::cell_ref_to(v, t, hdr, c, r).1 is Ok,
    ensures
        ({
            let t1 = roottable::cell_ref_to(v, t, hdr, c, r).0;
            &&& sound(v, t1, hdr)
            &&& holds(v, t1, hdr, c, 16)
            &&& held(v, t1, hdr, c, 16) == r
            &&& roottable::record_of(v, t1, hdr.ag_num, r) == Ok::<Seq<u8>, FsError>(
                fmt::zeros(128),
            )
            &&& forall|b: int|
                0 <= b < block_count(hdr) ==> #[trigger] block_state(v, t1, hdr, b) == if b / 256
                    == c {
                    Ok::<u8, FsError>(CELL_FREE)
                } else {
                    block_state(v, t, hdr, b)
                }
        }),
{
    let t1 = roottable::cell_ref_to(v, t, hdr, c, r).0;
    law_cell_reference_reads_back(v, t, hdr, c, r);
    assert forall|q: (u32, u16)| good_ref(v, t, hdr, q) implies {
        &&& #[trigger] good_ref(v, t1, hdr, q)
        &&& roottable::record_of(v, t1, hdr.ag_num, q) == roottable::record_of(
            v,
            t,
            hdr.ag_num,
            q,
        )
    } by {
        assert(vol::rd(v, t1, fmt::addr_of(hdr.ag_num, q.0)) == vol::rd(
            v,
            t,
            fmt::addr_of(hdr.ag_num, q.0),
        ));
    }
    assert(good_ref(v, t1, hdr, r));
    assert(cell_rec(v, t1, hdr, c) == fmt::zeros(128));
    assert forall|d: int, j: int|
        #![trigger holds(v, t1, hdr, d, j)]
        {
            &&& d != c ==> holds(v, t1, hdr, d, j) == holds(v, t, hdr, d, j)
            &&& d == c ==> holds(v, t1, hdr, d, j) == (j == 16)
            &&& d != c && holds(v, t, hdr, d, j) ==> held(v, t1, hdr, d, j) == held(
                v,
                t,
                hdr,
                d,
                j,
            )
        } by {
        if d == c {
            if 0 <= j < 16 {
                lemma_empty_record(j);
            }
        } else if holds(v, t, hdr, d, 16) {
            assert(good_ref(v, t, hdr, held(v, t, hdr, d, 16)));
            assert(good_ref(v, t1, hdr, held(v, t, hdr, d, 16)));
            assert(cell_rec(v, t1, hdr, d) == cell_rec(v, t, hdr, d));
        }
    }
    assert forall|d: int, j: int| d != -1 && #[trigger] holds(v, t1, hdr, d, j) implies good_ref(
        v,
        t1,
        hdr,
        held(v, t1, hdr, d, j),
    ) by {
        if d != c {
            assert(holds(v, t, hdr, d, j));
            assert(good_ref(v, t, hdr, held(v, t, hdr, d, j)));
        }
    }
    assert forall|d: int, j: int, e: int, k: int|
        d != -1 && e != -1 && #[trigger] holds(v, t1, hdr, d, j) && #[trigger] holds(
            v,
            t1,
            hdr,
            e,
            k,
        ) && held(v, t1, hdr, d, j) == held(v, t1, hdr, e, k) implies d == e && j == k by {
        if d != c {
            assert(holds(v, t, hdr, d, j));
        }
        if e != c {
            assert(holds(v, t, hdr, e, k));
        }
    }
    assert forall|b: int| 0 <= b < block_count(hdr) implies #[trigger] block_state(v, t1, hdr, b)
        == if b / 256 == c {
        Ok::<u8, FsError>(CELL_FREE)
    } else {
        block_state(v, t, hdr, b)
    } by {
        if b / 256 == c {
            lemma_empty_record(b % 256 / 16);
        } else {
            assert forall|j: int|
                #![trigger holds(v, t, hdr, b / 256, j)]
                holds(v, t, hdr, b / 256, j) implies {
                let q = held(v, t, hdr, b / 256, j);
                &&& roottable::record_of(v, t, hdr.ag_num, q) is Ok
                &&& roottable::record_of(v, t1, hdr.ag_num, q) == roottable::record_of(
                    v,
                    t,
                    hdr.ag_num,
                    q,
                )
            } by {
                let q = held(v, t, hdr, b / 256, j);
                assert(good_ref(v, t, hdr, q));
                assert(good_ref(v, t1, hdr, q));
            }
            lemma_same_cell_state(v, t, t1, hdr, b);
        }
    }
}

/// Refining a free cell: the tables stay sound, the cell has an empty record,
/// and no block changes state but those of another free cell that may have
/// become an arena.
#[verifier::rlimit(40)]
pub proof fn lemma_refine0(v: Vol, s: St, c: int)
    requires
        sound(v, s.t, s.hdr),
        0 <= c < allocator::cells_in(s.hdr),
        roottable::cell_of(v, s.t, s.hdr, c) == Ok::<u8, FsError>(CELL_FREE),
    ensures
        ({
            let (s1, r1) = allocator::refine0(v, s, c);
            r1 matches Ok(r) ==> {
                &&& same_place(s.hdr, s1.hdr)
                &&& sound(v, s1.t, s1.hdr)
                &&& holds(v, s1.t, s1.hdr, c, 16)
                &&& held(v, s1.t, s1.hdr, c, 16) == r
                &&& roottable::record_of(v, s1.t, s1.hdr.ag_num, r) == Ok::<Seq<u8>, FsError>(
                    fmt::zeros(128),
                )
                &&& grown(v, s.t, s1.t, s.hdr, c)
            }
        }),
{
    let hdr = s.hdr;
    let (s1, r1) = allocator::refine0(v, s, c);
    if r1 is Ok {
        let r = r1->Ok_0;
        let ta = roottable::cell_to(v, s.t, hdr, c, CELL_REFINED).0;
        let sa = St { t: ta, ..s };
        let sb = allocator::claim_rec(v, sa).0;
        lemma_flip(v, s.t, hdr, c);
        lemma_claim(v, sa, c);
        lemma_kept_holds(v, ta, sb.t, hdr, c);
        lemma_same_place(v, sb.t, hdr, sb.hdr);
        assert forall|d: int, j: int| d != c && #[trigger] holds(v, sb.t, sb.hdr, d, j) implies held(
            v,
            sb.t,
            sb.hdr,
            d,
            j,
        ) != r by {
            assert(holds(v, sb.t, hdr, d, j));
            assert(holds(v, ta, hdr, d, j));
            assert(held(v, sb.t, hdr, d, j) == held(v, ta, hdr, d, j));
        }
        lemma_join(v, sb.t, sb.hdr, c, r);
        assert forall|b: int| 0 <= b < block_count(hdr) implies #[trigger] grown_at(
            v,
            s.t,
            s1.t,
            hdr,
            c,
            b,
        ) by {
            lemma_state_place(v, s1.t, hdr, s1.hdr, b);
            lemma_state_place(v, sb.t, hdr, s1.hdr, b);
            assert(block_state(v, s1.t, s1.hdr, b) == if b / 256 == c {
                Ok::<u8, FsError>(CELL_FREE)
            } else {
                block_state(v, sb.t, s1.hdr, b)
            });
            if b / 256 != c {
                lemma_kept_states(v, ta, sb.t, hdr, c, b);
                assert(block_state(v, ta, hdr, b) == block_state(v, s.t, hdr, b));
            }
        }
    }
}

// --- whole cells --------------------------------------------------------------

/// Setting the state of a cell that is neither reserved nor refined, before or
/// after: the tables stay sound, and its blocks alone change state.
pub proof fn lemma_whole_cell(v: Vol, t: Map<u64, Seq<u8>>, hdr: AgHeader, c: int, st: u8)
    requires
        sound(v, t, hdr),
        0 <= c < allocator::cells_in(hdr),
        roottable::cell_of(v, t, hdr, c) != Ok::<u8, FsError>(CELL_RSVD),
        roottable::cell_of(v, t, hdr, c) != Ok::<u8, FsError>(CELL_REFINED),
        st < 4,
        st != CELL_REFINED,
        roottable::cell_to(v, t, hdr, c, st).1 is Ok,
    ensures
        ({
            let t1 = roottable::cell_to(v, t, hdr, c, st).0;
            &&& sound(v, t1, hdr)
            &&& st != CELL_FULL ==> coarser(v, t, t1, hdr)
            &&& forall|d: int|
                0 <= d < allocator::cells_in(hdr) ==> #[trigger] roottable::cell_of(v, t1, hdr, d)
                    == if d == c {
                    Ok::<u8, FsError>(st)
                } else {
                    roottable::cell_of(v, t, hdr, d)
                }
            &&& forall|b: int|
                0 <= b < block_count(hdr) ==> #[trigger] block_state(v, t1, hdr, b) == if b / 256
                    == c {
                    Ok::<u8, FsError>(st)
                } else {
                    block_state(v, t, hdr, b)
                }
        }),
{
    let t1 = roottable::cell_to(v, t, hdr, c, st).0;
    lemma_cell_to(v, t, hdr, c, st);
    lemma_cell_change(v, t, hdr, c, st, -1);
    assert forall|d: int, j: int| #[trigger] holds(v, t1, hdr, d, j) implies {
        &&& holds(v, t, hdr, d, j)
        &&& held(v, t1, hdr, d, j) == held(v, t, hdr, d, j)
        &&& good_ref(v, t1, hdr, held(v, t, hdr, d, j))
    } by {
        assert(d != c);
        assert(holds(v, t, hdr, d, 16));
        assert(good_ref(v, t, hdr, held(v, t, hdr, d, 16)));
        assert(cell_rec(v, t1, hdr, d) == cell_rec(v, t, hdr, d));
        assert(holds(v, t, hdr, d, j));
        assert(good_ref(v, t, hdr, held(v, t, hdr, d, j)));
    }
    lemma_fewer(v, t, t1, hdr);
    if st != CELL_FULL {
        assert forall|d: int| #[trigger] holds(v, t1, hdr, d, 16) implies fills_none(
            cell_rec(v, t, hdr, d),
            cell_rec(v, t1, hdr, d),
        ) by {
            assert(holds(v, t, hdr, d, 16));
            assert(good_ref(v, t, hdr, held(v, t, hdr, d, 16)));
            assert(cell_rec(v, t1, hdr, d) == cell_rec(v, t, hdr, d));
        }
        lemma_coarser(v, t, t1, hdr);
    }
    assert forall|b: int| 0 <= b < block_count(hdr) implies #[trigger] block_state(v, t1, hdr, b)
        == if b / 256 == c {
        Ok::<u8, FsError>(st)
    } else {
        block_state(v, t, hdr, b)
    } by {
        if b / 256 != c {
            lemma_same_cell_state(v, t, t1, hdr, b);
        }
    }
}

/// Setting the states of free cells in a row to used.
pub proof fn lemma_whole_cells(v: Vol, t: Map<u64, Seq<u8>>, hdr: AgHeader, lo: int, hi: int)
    requires
        sound(v, t, hdr),
        0 <= lo <= hi <= allocator::cells_in(hdr),
        forall|c: int|
            lo <= c < hi ==> #[trigger] roottable::cell_of(v, t, hdr, c) == Ok::<u8, FsError>(
                CELL_FREE,
            ),
        roottable::cells_to(v, t, hdr, lo, hi, CELL_FULL).1 is Ok,
    ensures
        ({
            let t1 = roottable::cells_to(v, t, hdr, lo, hi, CELL_FULL).0;
            &&& sound(v, t1, hdr)
            &&& forall|c: int|
                0 <= c < allocator::cells_in(hdr) ==> #[trigger] roottable::cell_of(v, t1, hdr, c)
                    == if lo <= c < hi {
                    Ok::<u8, FsError>(CELL_FULL)
                } else {
                    roottable::cell_of(v, t, hdr, c)
                }
            &&& forall|b: int|
                0 <= b < block_count(hdr) ==> #[trigger] block_state(v, t1, hdr, b) == if lo <= b
                    / 256 < hi {
                    Ok::<u8, FsError>(CELL_FULL)
                } else {
                    block_state(v, t, hdr, b)
                }
        }),
    decreases hi - lo,
{
    if lo < hi {
        let t1 = roottable::cell_to(v, t, hdr, lo, CELL_FULL).0;
        assert(roottable::cell_of(v, t, hdr, lo) == Ok::<u8, FsError>(CELL_FREE));
        lemma_whole_cell(v, t, hdr, lo, CELL_FULL);
        lemma_whole_cells(v, t1, hdr, lo + 1, hi);
        let t2 = roottable::cells_to(v, t1, hdr, lo + 1, hi, CELL_FULL).0;
        assert forall|b: int| 0 <= b < block_count(hdr) implies #[trigger] block_state(
            v,
            t2,
            hdr,
            b,
        ) == if lo <= b / 256 < hi {
            Ok::<u8, FsError>(CELL_FULL)
        } else {
            block_state(v, t, hdr, b)
        } by {
            let mid = block_state(v, t1, hdr, b);
        }
    }
}

/// States `lo` to `hi` of a record set: they read back, and the other states
/// and the references are as they were.
pub proof fn lemma_with_states(rec: Seq<u8>, lo: int, hi: int, st: u8)
    requires
        rec.len() == 128,
        0 <= lo <= hi <= 16,
        st < 4,
    ensures
        record::with_states(rec, lo, hi, st).len() == 128,
        forall|j: int|
            0 <= j < 16 ==> #[trigger] fmt::cell_at(record::with_states(rec, lo, hi, st), j)
                == if lo <= j < hi {
                st
            } else {
                fmt::cell_at(rec, j)
            },
        forall|j: int|
            0 <= j < 16 ==> #[trigger] record::ref_of(record::with_states(rec, lo, hi, st), j)
                == record::ref_of(rec, j),
    decreases hi - lo,
{
    if lo < hi {
        lemma_with_states(rec, lo, hi - 1, st);
        let w = record::with_states(rec, lo, hi - 1, st);
        lemma_rec_fields(w, hi - 1, st, (0, 0));
        assert(record::with_states(rec, lo, hi, st) == fmt::cell_put(w, hi - 1, st));
        assert forall|j: int| 0 <= j < 16 implies #[trigger] fmt::cell_at(
            record::with_states(rec, lo, hi, st),
            j,
        ) == if lo <= j < hi {
            st
        } else {
            fmt::cell_at(rec, j)
        } by {
            let x = fmt::cell_at(w, j);
        }
        assert forall|j: int| 0 <= j < 16 implies #[trigger] record::ref_of(
            record::with_states(rec, lo, hi, st),
            j,
        ) == record::ref_of(rec, j) by {
            let x = record::ref_of(w, j);
        }
    }
}

/// A header that differs in its counters alone has sound tables still.
pub proof fn lemma_sound_hdr(v: Vol, t: Map<u64, Seq<u8>>, a: AgHeader, b: AgHeader)
    requires
        same_place(a, b),
        a.tbl_arena == b.tbl_arena,
        sound(v, t, a),
    ensures
        sound(v, t, b),
{
    lemma_same_place(v, t, a, b);
    assert(base_sound(v, t, b)) by {
        assert forall|l: u32| l as int / 256 == b.tbl_arena as int / 256 && b.tbl_arena
            != 0 implies #[trigger] off_root(b, v.bs, l) by {
            assert(off_root(a, v.bs, l));
        }
        assert forall|l: u32|
            !(#[trigger] off_root(b, v.bs, l)) && l as int / 256 < allocator::cells_in(
                b,
            ) implies roottable::cell_of(v, t, b, l as int / 256) == Ok::<u8, FsError>(
            CELL_RSVD,
        ) by {
            assert(!off_root(a, v.bs, l));
        }
    }
    assert forall|c: int, i: int| c != -1 && #[trigger] holds(v, t, b, c, i) implies good_ref(
        v,
        t,
        b,
        held(v, t, b, c, i),
    ) by {
        assert(holds(v, t, a, c, i));
    }
    assert forall|c: int, i: int, d: int, j: int|
        c != -1 && d != -1 && #[trigger] holds(v, t, b, c, i) && #[trigger] holds(v, t, b, d, j)
            && held(v, t, b, c, i) == held(v, t, b, d, j) implies c == d && i == j by {
        assert(holds(v, t, a, c, i) && holds(v, t, a, d, j));
        assert(held(v, t, b, c, i) == held(v, t, a, c, i));
        assert(held(v, t, b, d, j) == held(v, t, a, d, j));
    }
}

/// The tables have the same form in both: cells have the same states, and those
/// that are refined the same records.
#[verifier::opaque]
pub open spec fn forms_kept(v: Vol, t: Map<u64, Seq<u8>>, t1: Map<u64, Seq<u8>>, hdr: AgHeader) -> bool {
    &&& forall|c: int|
        0 <= c < allocator::cells_in(hdr) ==> #[trigger] roottable::cell_of(v, t1, hdr, c)
            == roottable::cell_of(v, t, hdr, c)
    &&& forall|c: int, i: int| #[trigger]
        holds(v, t, hdr, c, i) ==> holds(v, t1, hdr, c, i) && held(v, t1, hdr, c, i) == held(
            v,
            t,
            hdr,
            c,
            i,
        ) && roottable::record_of(v, t1, hdr.ag_num, held(v, t, hdr, c, i)) == roottable::record_of(
            v,
            t,
            hdr.ag_num,
            held(v, t, hdr, c, i),
        )
}

proof fn lemma_forms_kept(v: Vol, t: Map<u64, Seq<u8>>, t1: Map<u64, Seq<u8>>, hdr: AgHeader)
    requires
        forall|c: int|
            0 <= c < allocator::cells_in(hdr) ==> #[trigger] roottable::cell_of(v, t1, hdr, c)
                == roottable::cell_of(v, t, hdr, c),
        forall|c: int|
            0 <= c < allocator::cells_in(hdr) ==> #[trigger] roottable::cell_ref(v, t1, hdr, c)
                == roottable::cell_ref(v, t, hdr, c),
        forall|c: int, i: int| #[trigger]
            holds(v, t, hdr, c, i) ==> roottable::record_of(
                v,
                t1,
                hdr.ag_num,
                held(v, t, hdr, c, i),
            ) == roottable::record_of(v, t, hdr.ag_num, held(v, t, hdr, c, i)),
    ensures
        forms_kept(v, t, t1, hdr),
{
    reveal(forms_kept);
    assert forall|c: int, i: int| #[trigger] holds(v, t, hdr, c, i) implies holds(
        v,
        t1,
        hdr,
        c,
        i,
    ) && held(v, t1, hdr, c, i) == held(v, t, hdr, c, i) by {
        assert(holds(v, t, hdr, c, 16));
        assert(held(v, t, hdr, c, 16) == roottable::cell_ref(v, t, hdr, c)->Ok_0);
        assert(cell_rec(v, t1, hdr, c) == cell_rec(v, t, hdr, c));
    }
}

/// Storing the header leaves the tables as they are.
#[verifier::rlimit(40)]
pub proof fn lemma_header_to(v: Vol, s: St)
    requires
        sound(v, s.t, s.hdr),
        allocator::header_to(s, v.bs).1 is Ok,
    ensures
        ({
            let s1 = allocator::header_to(s, v.bs).0;
            &&& sound(v, s1.t, s1.hdr)
            &&& same_place(s.hdr, s1.hdr)
            &&& forall|b: int|
                0 <= b < block_count(s.hdr) ==> #[trigger] block_state(v, s1.t, s.hdr, b)
                    == block_state(v, s.t, s.hdr, b)
            &&& fs::header_of(v, s1.t, s.hdr.ag_num) == Ok::<AgHeader, FsError>(s1.hdr)
            &&& forms_kept(v, s.t, s1.t, s.hdr)
        }),
{
    let (t, hdr, ag) = (s.t, s.hdr, s.hdr.ag_num);
    let s1 = allocator::header_to(s, v.bs).0;
    let t1 = s1.t;
    let h = fs::header_local(ag);
    header::law_header_round_trip(
        s1.hdr,
        fs::header_block(s1.hdr, v.bs).skip(header::hdr_image(s1.hdr).len() as int),
    );
    assert(header::hdr_image(s1.hdr) + fs::header_block(s1.hdr, v.bs).skip(
        header::hdr_image(s1.hdr).len() as int,
    ) =~= fs::header_block(s1.hdr, v.bs));
    assert forall|l: u32| #![trigger fmt::addr_of(ag, l)] l != h implies vol::rd(
        v,
        t1,
        fmt::addr_of(ag, l),
    ) == vol::rd(v, t, fmt::addr_of(ag, l)) by {
        lemma_addr(ag, h, l);
    }
    lemma_off_root(v, t, t1, hdr, h);
    assert forall|q: (u32, u16)| good_ref(v, t, hdr, q) implies {
        &&& #[trigger] good_ref(v, t1, hdr, q)
        &&& roottable::record_of(v, t1, ag, q) == roottable::record_of(v, t, ag, q)
    } by {
        assert(vol::rd(v, t1, fmt::addr_of(ag, q.0)) == vol::rd(v, t, fmt::addr_of(ag, q.0)));
    }
    assert forall|c: int, i: int| #[trigger] holds(v, t, hdr, c, i) implies {
        &&& good_ref(v, t1, hdr, held(v, t, hdr, c, i))
        &&& roottable::record_of(v, t1, ag, held(v, t, hdr, c, i)) == roottable::record_of(
            v,
            t,
            ag,
            held(v, t, hdr, c, i),
        )
    } by {
        assert(good_ref(v, t, hdr, held(v, t, hdr, c, i)));
        assert(good_ref(v, t1, hdr, held(v, t, hdr, c, i)));
    }
    lemma_sound_kept(v, t, t1, hdr, hdr, -1);
    lemma_sound_hdr(v, t1, hdr, s1.hdr);
    assert forall|b: int| 0 <= b < block_count(hdr) implies #[trigger] block_state(v, t1, hdr, b)
        == block_state(v, t, hdr, b) by {
        lemma_same_cell_state(v, t, t1, hdr, b);
    }
    lemma_forms_kept(v, t, t1, hdr);
}

// --- coarsening ---------------------------------------------------------------

/// Releasing the record of a refined child and making the child free.
#[verifier::rlimit(40)]
pub proof fn lemma_unrefine1(v: Vol, t: Map<u64, Seq<u8>>, hdr: AgHeader, c: int, i: int)
    requires
        sound(v, t, hdr),
        holds(v, t, hdr, c, i),
        i < 16,
        allocator::release_rec(v, t, hdr.ag_num, held(v, t, hdr, c, i)).1 is Ok,
        roottable::record_to(
            v,
            allocator::release_rec(v, t, hdr.ag_num, held(v, t, hdr, c, i)).0,
            hdr.ag_num,
            held(v, t, hdr, c, 16),
            record::with_ref(
                fmt::cell_put(cell_rec(v, t, hdr, c), i, CELL_FREE),
                i,
                (0u32, 0u16),
            ),
        ).1 is Ok,
    ensures
        ({
            let t1 = allocator::release_rec(v, t, hdr.ag_num, held(v, t, hdr, c, i)).0;
            let t2 = roottable::record_to(
                v,
                t1,
                hdr.ag_num,
                held(v, t, hdr, c, 16),
                record::with_ref(
                    fmt::cell_put(cell_rec(v, t, hdr, c), i, CELL_FREE),
                    i,
                    (0u32, 0u16),
                ),
            ).0;
            &&& sound(v, t2, hdr)
            &&& coarser(v, t, t2, hdr)
            &&& holds(v, t2, hdr, c, 16)
            &&& held(v, t2, hdr, c, 16) == held(v, t, hdr, c, 16)
            &&& forall|b: int|
                0 <= b < block_count(hdr) ==> #[trigger] block_state(v, t2, hdr, b) == if b / 256
                    == c && b % 256 / 16 == i {
                    Ok::<u8, FsError>(CELL_FREE)
                } else {
                    block_state(v, t, hdr, b)
                }
        }),
{
    let ag = hdr.ag_num;
    let l1 = held(v, t, hdr, c, i);
    let l0 = held(v, t, hdr, c, 16);
    let rec = cell_rec(v, t, hdr, c);
    let rec1 = fmt::cell_put(rec, i, CELL_FREE);
    let rec2 = record::with_ref(rec1, i, (0u32, 0u16));
    let t1 = allocator::release_rec(v, t, ag, l1).0;
    let t2 = roottable::record_to(v, t1, ag, l0, rec2).0;
    assert(holds(v, t, hdr, c, 16));
    assert(good_ref(v, t, hdr, l0) && good_ref(v, t, hdr, l1));
    assert(l0 != l1);
    lemma_record_len(v, t, hdr, l0);
    lemma_rec_fields(rec, i, CELL_FREE, (0, 0));
    lemma_rec_fields(rec1, i, CELL_FREE, (0, 0));
    lemma_release(v, t, hdr, l1);
    lemma_record_change(v, t1, hdr, l0, rec2);
    assert(refines_less(rec, rec2)) by {
        assert forall|j: int|
            0 <= j < 16 && #[trigger] fmt::cell_at(rec2, j)
                == CELL_REFINED implies fmt::cell_at(rec, j) == CELL_REFINED && record::ref_of(
            rec2,
            j,
        ) == record::ref_of(rec, j) by {
            assert(fmt::cell_at(rec1, j) == fmt::cell_at(rec2, j));
            assert(record::ref_of(rec1, j) == record::ref_of(rec, j));
        }
    }
    assert(fmt::cell_at(rec2, i) == CELL_FREE) by {
        assert(fmt::cell_at(rec1, i) == CELL_FREE);
    }
    assert(rec_put(v, t, t2, hdr, c, rec2)) by {
        assert forall|d: int, j: int| #[trigger]
            holds(v, t, hdr, d, j) && (d != c || (j < 16 && fmt::cell_at(rec2, j)
                == CELL_REFINED)) implies {
            let q = held(v, t, hdr, d, j);
            &&& good_ref(v, t2, hdr, q)
            &&& roottable::record_of(v, t2, ag, q) == roottable::record_of(v, t, ag, q)
        } by {
            let q = held(v, t, hdr, d, j);
            assert(!(d == c && j == i));
            assert(q != l1);
            assert(good_ref(v, t, hdr, q));
            assert(good_ref(v, t1, hdr, q));
            assert(q != l0);
        }
    }
    lemma_rec_put(v, t, t2, hdr, c, rec2);
    lemma_fewer(v, t, t2, hdr);
    assert(fills_none(rec, rec2)) by {
        assert forall|j: int|
            0 <= j < 16 && #[trigger] fmt::cell_at(rec2, j)
                == CELL_FULL implies fmt::cell_at(rec, j) == CELL_FULL by {
            assert(fmt::cell_at(rec1, j) == fmt::cell_at(rec2, j));
        }
    }
    lemma_rec_coarser(v, t, t2, hdr, c, rec2);
    assert forall|b: int| 0 <= b < block_count(hdr) implies #[trigger] block_state(v, t2, hdr, b)
        == if b / 256 == c && b % 256 / 16 == i {
        Ok::<u8, FsError>(CELL_FREE)
    } else {
        block_state(v, t, hdr, b)
    } by {
        let j = b % 256 / 16;
        if b / 256 == c && j != i {
            assert(fmt::cell_at(rec2, j) == fmt::cell_at(rec1, j));
            assert(fmt::cell_at(rec1, j) == fmt::cell_at(rec, j));
        }
    }
}

/// Releasing the record of a refined cell whose children are all free, and
/// making the cell free.
#[verifier::rlimit(40)]
pub proof fn lemma_unrefine0(v: Vol, s: St, c: int)
    requires
        sound(v, s.t, s.hdr),
        holds(v, s.t, s.hdr, c, 16),
    ensures
        ({
            let (s1, r1) = allocator::coarsen0(
                v,
                s,
                s.hdr.ag_num,
                c,
                held(v, s.t, s.hdr, c, 16),
            );
            r1 is Ok ==> {
                &&& s1.hdr == s.hdr
                &&& sound(v, s1.t, s.hdr)
                &&& coarser(v, s.t, s1.t, s.hdr)
                &&& forall|b: int|
                    0 <= b < block_count(s.hdr) ==> #[trigger] block_state(v, s1.t, s.hdr, b)
                        == block_state(v, s.t, s.hdr, b)
            }
        }),
{
    let (t, hdr, ag) = (s.t, s.hdr, s.hdr.ag_num);
    let l0 = held(v, t, hdr, c, 16);
    let (s1, r1) = allocator::coarsen0(v, s, ag, c, l0);
    let rec = cell_rec(v, t, hdr, c);
    assert(good_ref(v, t, hdr, l0));
    if r1 is Ok && !record::all_in(rec, CELL_FREE) {
        reveal(coarser);
    }
    if r1 is Ok && record::all_in(rec, CELL_FREE) {
        let t1 = allocator::release_rec(v, t, ag, l0).0;
        let t2 = roottable::cell_to(v, t1, hdr, c, CELL_FREE).0;
        let t3 = s1.t;
        lemma_release(v, t, hdr, l0);
        assert forall|d: int, j: int| d != c implies {
            &&& #[trigger] holds(v, t1, hdr, d, j) == holds(v, t, hdr, d, j)
            &&& holds(v, t, hdr, d, j) ==> held(v, t1, hdr, d, j) == held(v, t, hdr, d, j)
        } by {
            if holds(v, t, hdr, d, 16) {
                assert(good_ref(v, t, hdr, held(v, t, hdr, d, 16)));
                assert(held(v, t, hdr, d, 16) != l0);
                assert(cell_rec(v, t1, hdr, d) == cell_rec(v, t, hdr, d));
            }
        }
        assert(sound_but(v, t1, hdr, c)) by {
            assert forall|d: int, j: int| d != c && #[trigger]
                holds(v, t1, hdr, d, j) implies good_ref(v, t1, hdr, held(v, t1, hdr, d, j)) by {
                assert(holds(v, t, hdr, d, j));
                assert(good_ref(v, t, hdr, held(v, t, hdr, d, j)));
            }
            assert forall|d: int, j: int, e: int, k: int|
                d != c && e != c && #[trigger] holds(v, t1, hdr, d, j) && #[trigger] holds(
                    v,
                    t1,
                    hdr,
                    e,
                    k,
                ) && held(v, t1, hdr, d, j) == held(v, t1, hdr, e, k) implies d == e && j == k by {
                assert(holds(v, t, hdr, d, j) && holds(v, t, hdr, e, k));
            }
        }
        lemma_cell_to(v, t1, hdr, c, CELL_FREE);
        lemma_cell_change(v, t1, hdr, c, CELL_FREE, c);
        law_cell_reference_reads_back(v, t2, hdr, c, (0u32, 0u16));
        assert forall|q: (u32, u16)| good_ref(v, t2, hdr, q) implies {
            &&& #[trigger] good_ref(v, t3, hdr, q)
            &&& roottable::record_of(v, t3, ag, q) == roottable::record_of(v, t2, ag, q)
        } by {
            assert(vol::rd(v, t3, fmt::addr_of(ag, q.0)) == vol::rd(
                v,
                t2,
                fmt::addr_of(ag, q.0),
            ));
        }
        assert forall|d: int, j: int| d != c && #[trigger] holds(v, t, hdr, d, j) implies {
            let q = held(v, t, hdr, d, j);
            &&& good_ref(v, t3, hdr, q)
            &&& roottable::record_of(v, t3, ag, q) == roottable::record_of(v, t, ag, q)
        } by {
            let q = held(v, t, hdr, d, j);
            assert(good_ref(v, t, hdr, q) && q != l0);
            assert(good_ref(v, t1, hdr, q));
            assert(good_ref(v, t2, hdr, q));
            assert(good_ref(v, t3, hdr, q));
        }
        lemma_unrefined(v, t, t3, hdr, c);
    }
}

/// A refined cell with only free children made free, seen from the blocks.
proof fn lemma_unrefined(v: Vol, t: Map<u64, Seq<u8>>, t1: Map<u64, Seq<u8>>, hdr: AgHeader, c: int)
    requires
        sound(v, t, hdr),
        holds(v, t, hdr, c, 16),
        record::all_in(cell_rec(v, t, hdr, c), CELL_FREE),
        vol::txn_ok(t1, v.bs),
        base_sound(v, t1, hdr),
        forall|d: int|
            0 <= d < allocator::cells_in(hdr) ==> #[trigger] roottable::cell_of(v, t1, hdr, d)
                == if d == c {
                Ok::<u8, FsError>(CELL_FREE)
            } else {
                roottable::cell_of(v, t, hdr, d)
            },
        forall|d: int|
            0 <= d < allocator::cells_in(hdr) && d != c ==> #[trigger] roottable::cell_ref(
                v,
                t1,
                hdr,
                d,
            ) == roottable::cell_ref(v, t, hdr, d),
        forall|d: int, j: int|
            d != c && #[trigger] holds(v, t, hdr, d, j) ==> {
                let q = held(v, t, hdr, d, j);
                &&& good_ref(v, t1, hdr, q)
                &&& roottable::record_of(v, t1, hdr.ag_num, q) == roottable::record_of(
                    v,
                    t,
                    hdr.ag_num,
                    q,
                )
            },
    ensures
        sound(v, t1, hdr),
        coarser(v, t, t1, hdr),
        forall|b: int|
            0 <= b < block_count(hdr) ==> #[trigger] block_state(v, t1, hdr, b) == block_state(
                v,
                t,
                hdr,
                b,
            ),
{
    assert forall|d: int, j: int| #[trigger] holds(v, t1, hdr, d, j) implies {
        &&& holds(v, t, hdr, d, j)
        &&& held(v, t1, hdr, d, j) == held(v, t, hdr, d, j)
        &&& good_ref(v, t1, hdr, held(v, t, hdr, d, j))
    } by {
        assert(d != c);
        assert(holds(v, t, hdr, d, 16));
        assert(cell_rec(v, t1, hdr, d) == cell_rec(v, t, hdr, d));
        assert(holds(v, t, hdr, d, j));
    }
    lemma_fewer(v, t, t1, hdr);
    assert forall|d: int| #[trigger] holds(v, t1, hdr, d, 16) implies fills_none(
        cell_rec(v, t, hdr, d),
        cell_rec(v, t1, hdr, d),
    ) by {
        assert(d != c);
        assert(holds(v, t, hdr, d, 16));
        assert(cell_rec(v, t1, hdr, d) == cell_rec(v, t, hdr, d));
    }
    lemma_coarser(v, t, t1, hdr);
    assert forall|b: int| 0 <= b < block_count(hdr) implies #[trigger] block_state(v, t1, hdr, b)
        == block_state(v, t, hdr, b) by {
        if b / 256 == c {
            let i = b % 256 / 16;
            assert(good_ref(v, t, hdr, held(v, t, hdr, c, 16)));
            assert(fmt::cell_at(cell_rec(v, t, hdr, c), i) == CELL_FREE);
        } else {
            assert forall|j: int|
                #![trigger holds(v, t, hdr, b / 256, j)]
                holds(v, t, hdr, b / 256, j) implies {
                let q = held(v, t, hdr, b / 256, j);
                &&& roottable::record_of(v, t, hdr.ag_num, q) is Ok
                &&& roottable::record_of(v, t1, hdr.ag_num, q) == roottable::record_of(
                    v,
                    t,
                    hdr.ag_num,
                    q,
                )
            } by {
                assert(good_ref(v, t, hdr, held(v, t, hdr, b / 256, j)));
            }
            lemma_same_cell_state(v, t, t1, hdr, b);
        }
    }
}

// --- other writes -------------------------------------------------------------

/// Writing a block of another group, or one that is free or in use, leaves the
/// tables as they are.
#[verifier::rlimit(40)]
pub proof fn lemma_foreign_write(v: Vol, t: Map<u64, Seq<u8>>, hdr: AgHeader, x: u64, b: Seq<u8>)
    requires
        sound(v, t, hdr),
        b.len() == v.bs,
        fmt::addr_ag(x) != hdr.ag_num || (fmt::addr_local(x) < block_count(hdr) && (block_state(
            v,
            t,
            hdr,
            fmt::addr_local(x) as int,
        ) == Ok::<u8, FsError>(CELL_FULL) || block_state(
            v,
            t,
            hdr,
            fmt::addr_local(x) as int,
        ) == Ok::<u8, FsError>(CELL_FREE))),
    ensures
        sound(v, t.insert(x, b), hdr),
        forall|l: int|
            0 <= l < block_count(hdr) ==> #[trigger] block_state(v, t.insert(x, b), hdr, l)
                == block_state(v, t, hdr, l),
        fs::header_of(v, t.insert(x, b), hdr.ag_num) == fs::header_of(v, t, hdr.ag_num),
        forms_kept(v, t, t.insert(x, b), hdr),
{
    let ag = hdr.ag_num;
    let t1 = t.insert(x, b);
    let h = fs::header_local(ag);
    assert forall|l: u32|
        #![trigger fmt::addr_of(ag, l)]
        (!off_root(hdr, v.bs, l) || (l as int / 256 < allocator::cells_in(hdr)
            && roottable::cell_of(v, t, hdr, l as int / 256) == Ok::<u8, FsError>(
            CELL_RSVD,
        ))) implies vol::rd(v, t1, fmt::addr_of(ag, l)) == vol::rd(v, t, fmt::addr_of(ag, l)) by {
        fmt::law_address_halves(ag, l, x);
        if fmt::addr_of(ag, l) == x {
            assert(fmt::addr_local(x) == l);
            assert(l as int / 256 < allocator::cells_in(hdr));
            assert(roottable::cell_of(v, t, hdr, l as int / 256) == Ok::<u8, FsError>(CELL_RSVD));
        }
    }
    assert(!off_root(hdr, v.bs, h));
    assert(vol::rd(v, t1, fmt::addr_of(ag, h)) == vol::rd(v, t, fmt::addr_of(ag, h)));
    assert(root_same(v, t, t1, hdr)) by {
        assert forall|l: u32|
            #![trigger fmt::addr_of(ag, l)]
            in_root(hdr, v.bs, l as int) implies vol::rd(v, t1, fmt::addr_of(ag, l)) == vol::rd(
            v,
            t,
            fmt::addr_of(ag, l),
        ) by {
            assert(!off_root(hdr, v.bs, l));
        }
    }
    lemma_root_same(v, t, t1, hdr);
    assert forall|q: (u32, u16)| good_ref(v, t, hdr, q) implies {
        &&& #[trigger] good_ref(v, t1, hdr, q)
        &&& roottable::record_of(v, t1, ag, q) == roottable::record_of(v, t, ag, q)
    } by {
        assert(vol::rd(v, t1, fmt::addr_of(ag, q.0)) == vol::rd(v, t, fmt::addr_of(ag, q.0)));
    }
    assert forall|c: int, i: int| #[trigger] holds(v, t, hdr, c, i) implies {
        &&& good_ref(v, t1, hdr, held(v, t, hdr, c, i))
        &&& roottable::record_of(v, t1, ag, held(v, t, hdr, c, i)) == roottable::record_of(
            v,
            t,
            ag,
            held(v, t, hdr, c, i),
        )
    } by {
        assert(good_ref(v, t, hdr, held(v, t, hdr, c, i)));
        assert(good_ref(v, t1, hdr, held(v, t, hdr, c, i)));
    }
    lemma_sound_kept(v, t, t1, hdr, hdr, -1);
    assert forall|l: int| 0 <= l < block_count(hdr) implies #[trigger] block_state(v, t1, hdr, l)
        == block_state(v, t, hdr, l) by {
        lemma_same_cell_state(v, t, t1, hdr, l);
    }
    lemma_forms_kept(v, t, t1, hdr);
}

} // verus!
