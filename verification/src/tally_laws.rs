//! The check counts what the allocator sees: the tally of a group's tables is
//! the number of its blocks in each state.

use vstd::prelude::*;

use crate::allocator;
use crate::error::FsError;
use crate::fmt;
use crate::fmt::{CELL_FREE, CELL_FULL, CELL_REFINED};
use crate::fsck;
use crate::fsck::Tally;
use crate::header;
use crate::header::AgHeader;
use crate::import;
use crate::new_tables;
use crate::record;
use crate::roottable;
use crate::tables;
use crate::vol;
use crate::vol::Vol;

verus! {

// --- the table in one piece ---------------------------------------------------

#[verifier::rlimit(40)]
#[verifier::spinoff_prover]
proof fn lemma_run(v: Vol, ag: u32, local: u32, done: Seq<u8>, i: int, n: int)
    requires
        0 <= i <= n,
        v.bs > 0,
        import::run_read(v, ag, local, done, i, n) is Ok,
    ensures
        ({
            let t = import::run_read(v, ag, local, done, i, n)->Ok_0;
            &&& t.len() == done.len() + (n - i) * v.bs
            &&& t.take(done.len() as int) == done
            &&& forall|j: int|
                i <= j < n ==> #[trigger] vol::rd0(v, fmt::addr_of(ag, (local + j) as u32)) == Ok::<
                    Seq<u8>,
                    FsError,
                >(
                    t.subrange(
                        done.len() + (j - i) * v.bs,
                        done.len() + (j - i) * v.bs + v.bs,
                    ),
                )
        }),
    decreases n - i,
{
    let t = import::run_read(v, ag, local, done, i, n)->Ok_0;
    let bs = v.bs as int;
    if i < n {
        let a = fmt::addr_of(ag, (local + i) as u32);
        let b = vol::rd0(v, a)->Ok_0;
        assert(b.len() == bs);
        lemma_run(v, ag, local, done + b, i + 1, n);
        assert((n - i) * bs == (n - i - 1) * bs + bs && (n - i - 1) * bs >= 0) by (nonlinear_arith)
            requires
                i < n,
                bs > 0,
        ;
        assert(t.take(done.len() as int) =~= (done + b).take(done.len() as int));
        assert((done + b).take(done.len() as int) =~= done);
        assert forall|j: int| i <= j < n implies #[trigger] vol::rd0(
            v,
            fmt::addr_of(ag, (local + j) as u32),
        ) == Ok::<Seq<u8>, FsError>(
            t.subrange(done.len() + (j - i) * bs, done.len() + (j - i) * bs + bs),
        ) by {
            if j == i {
                assert((j - i) * bs == 0) by (nonlinear_arith)
                    requires
                        j == i,
                ;
                assert(t.subrange(done.len() as int, done.len() + bs) =~= t.take(
                    (done + b).len() as int,
                ).subrange(done.len() as int, done.len() + bs));
                assert((done + b).subrange(done.len() as int, done.len() + bs) =~= b);
            } else {
                assert((j - i) * bs == (j - i - 1) * bs + bs) by (nonlinear_arith);
            }
        }
    } else {
        assert((n - i) * bs == 0) by (nonlinear_arith)
            requires
                i == n,
        ;
        assert(t.take(done.len() as int) =~= done);
    }
}

/// A root table that is read is what its blocks hold, one behind the other.
pub proof fn law_root_table_is_its_blocks(v: Vol, h: AgHeader, t: Seq<u8>)
    requires
        v.bs > 0,
        header::table_blocks(h.length, v.bs) >= 0,
        import::root_table_of(v, h) == Ok::<Seq<u8>, FsError>(t),
    ensures
        t.len() == header::table_blocks(h.length, v.bs) * v.bs,
        new_tables::shows(v, h, t),
{
    let n = header::table_blocks(h.length, v.bs);
    lemma_run(v, h.ag_num, h.alloc_root, Seq::empty(), 0, n);
    assert forall|j: int| 0 <= j < n implies #[trigger] vol::rd0(
        v,
        fmt::addr_of(h.ag_num, (h.alloc_root + j) as u32),
    ) == Ok::<Seq<u8>, FsError>(t.subrange(j * v.bs, j * v.bs + v.bs)) by {
        assert(j - 0 == j);
    }
}

// --- counting blocks ----------------------------------------------------------

/// Whether block `b` of the group is free.
pub open spec fn is_free(v: Vol, h: AgHeader, b: int) -> bool {
    tables::block_state(v, Map::empty(), h, b) == Ok::<u8, FsError>(CELL_FREE)
}

/// Whether block `b` of the group is in use: full, or cut into inode slots.
pub open spec fn is_used(v: Vol, h: AgHeader, b: int) -> bool {
    tables::block_state(v, Map::empty(), h, b) == Ok::<u8, FsError>(CELL_FULL)
        || tables::block_state(v, Map::empty(), h, b) == Ok::<u8, FsError>(CELL_REFINED)
}

/// How many of the first `n` blocks are free.
pub open spec fn free_count(v: Vol, h: AgHeader, n: int) -> int
    decreases n,
{
    if n <= 0 {
        0
    } else {
        free_count(v, h, n - 1) + if is_free(v, h, n - 1) {
            1int
        } else {
            0
        }
    }
}

/// How many of the first `n` blocks are in use.
pub open spec fn used_count(v: Vol, h: AgHeader, n: int) -> int
    decreases n,
{
    if n <= 0 {
        0
    } else {
        used_count(v, h, n - 1) + if is_used(v, h, n - 1) {
            1int
        } else {
            0
        }
    }
}

spec fn upto(v: Vol, h: AgHeader, n: int) -> Tally {
    Tally { free: free_count(v, h, n), full: used_count(v, h, n) }
}

/// Blocks in one state count as so many.
proof fn lemma_same(v: Vol, h: AgHeader, b: int, k: int, st: u8)
    requires
        0 <= b,
        0 <= k,
        st != CELL_REFINED,
        forall|x: int|
            b <= x < b + k ==> #[trigger] tables::block_state(v, Map::empty(), h, x) == Ok::<
                u8,
                FsError,
            >(st),
    ensures
        upto(v, h, b + k) == fsck::plus(upto(v, h, b), st, k),
    decreases k,
{
    if k > 0 {
        lemma_same(v, h, b, k - 1, st);
        let x = b + k - 1;
        assert(tables::block_state(v, Map::empty(), h, x) == Ok::<u8, FsError>(st));
        assert(free_count(v, h, b + k) == free_count(v, h, x) + if is_free(v, h, x) {
            1int
        } else {
            0
        });
        assert(used_count(v, h, b + k) == used_count(v, h, x) + if is_used(v, h, x) {
            1int
        } else {
            0
        });
    }
}

/// The blocks of a level-1 record.
proof fn lemma_blocks(v: Vol, h: AgHeader, sub: Seq<u8>, base: int, i: int)
    requires
        0 <= base,
        0 <= i <= 16,
        forall|x: int|
            base <= x < base + 16 ==> #[trigger] tables::block_state(v, Map::empty(), h, x)
                == Ok::<u8, FsError>(fmt::cell_at(sub, x - base)),
    ensures
        fsck::blocks_counted(sub, upto(v, h, base + i), i) == upto(v, h, base + 16),
    decreases 16 - i,
{
    if i < 16 {
        lemma_blocks(v, h, sub, base, i + 1);
        let x = base + i;
        let st = fmt::cell_at(sub, i);
        assert(tables::block_state(v, Map::empty(), h, x) == Ok::<u8, FsError>(st));
        assert(free_count(v, h, x + 1) == free_count(v, h, x) + if is_free(v, h, x) {
            1int
        } else {
            0
        });
        assert(used_count(v, h, x + 1) == used_count(v, h, x) + if is_used(v, h, x) {
            1int
        } else {
            0
        });
        assert(upto(v, h, x + 1) == fsck::plus(
            upto(v, h, x),
            if st == CELL_REFINED {
                CELL_FULL
            } else {
                st
            },
            1,
        ));
    }
}

/// Whether cell `c` is refined, by record `rec`.
spec fn refined_by(v: Vol, h: AgHeader, rec: Seq<u8>, c: int) -> bool {
    &&& roottable::cell_of(v, Map::empty(), h, c) == Ok::<u8, FsError>(CELL_REFINED)
    &&& roottable::cell_ref(v, Map::empty(), h, c) is Ok
    &&& roottable::record_of(
        v,
        Map::empty(),
        h.ag_num,
        roottable::cell_ref(v, Map::empty(), h, c)->Ok_0,
    ) == Ok::<Seq<u8>, FsError>(rec)
}

/// The state of block `k` in subcell `i` of a refined cell.
#[verifier::rlimit(40)]
#[verifier::spinoff_prover]
proof fn lemma_in_cell(v: Vol, h: AgHeader, rec: Seq<u8>, c: int, i: int, k: int)
    requires
        0 <= c,
        0 <= i < 16,
        0 <= k < 16,
        refined_by(v, h, rec, c),
    ensures
        ({
            let got = tables::block_state(v, Map::empty(), h, 256 * c + 16 * i + k);
            let st = fmt::cell_at(rec, i);
            &&& st != CELL_REFINED ==> got == Ok::<u8, FsError>(st)
            &&& st == CELL_REFINED && roottable::record_of(
                v,
                Map::empty(),
                h.ag_num,
                record::ref_of(rec, i),
            ) is Ok ==> got == Ok::<u8, FsError>(
                fmt::cell_at(
                    roottable::record_of(
                        v,
                        Map::empty(),
                        h.ag_num,
                        record::ref_of(rec, i),
                    )->Ok_0,
                    k,
                ),
            )
        }),
{
    crate::room_laws::lemma_halves(c, i, k);
}

/// One subcell of a level-0 record.
#[verifier::rlimit(40)]
#[verifier::spinoff_prover]
proof fn lemma_subcell(v: Vol, h: AgHeader, rec: Seq<u8>, c: int, i: int)
    requires
        0 <= c,
        0 <= i < 16,
        refined_by(v, h, rec, c),
    ensures
        ({
            let st = fmt::cell_at(rec, i);
            let base = 256 * c + 16 * i;
            let sub = roottable::record_of(v, Map::empty(), h.ag_num, record::ref_of(rec, i));
            &&& st != CELL_REFINED ==> fsck::plus(upto(v, h, base), st, 16) == upto(
                v,
                h,
                base + 16,
            )
            &&& st == CELL_REFINED && sub is Ok ==> fsck::blocks_counted(
                sub->Ok_0,
                upto(v, h, base),
                0,
            ) == upto(v, h, base + 16)
        }),
{
    let base = 256 * c + 16 * i;
    let st = fmt::cell_at(rec, i);
    let sub = roottable::record_of(v, Map::empty(), h.ag_num, record::ref_of(rec, i));
    if st != CELL_REFINED {
        assert forall|x: int| base <= x < base + 16 implies #[trigger] tables::block_state(
            v,
            Map::empty(),
            h,
            x,
        ) == Ok::<u8, FsError>(st) by {
            lemma_in_cell(v, h, rec, c, i, x - base);
        }
        lemma_same(v, h, base, 16, st);
    } else if sub is Ok {
        assert forall|x: int| base <= x < base + 16 implies #[trigger] tables::block_state(
            v,
            Map::empty(),
            h,
            x,
        ) == Ok::<u8, FsError>(fmt::cell_at(sub->Ok_0, x - base)) by {
            lemma_in_cell(v, h, rec, c, i, x - base);
        }
        lemma_blocks(v, h, sub->Ok_0, base, 0);
    }
}

/// The subcells of a level-0 record.
#[verifier::rlimit(40)]
#[verifier::spinoff_prover]
proof fn lemma_subcells(v: Vol, h: AgHeader, rec: Seq<u8>, c: int, i: int)
    requires
        0 <= c,
        0 <= i <= 16,
        refined_by(v, h, rec, c),
        fsck::subcells_counted(v, h.ag_num, rec, upto(v, h, 256 * c + 16 * i), i) is Ok,
    ensures
        fsck::subcells_counted(v, h.ag_num, rec, upto(v, h, 256 * c + 16 * i), i) == Ok::<
            Tally,
            FsError,
        >(upto(v, h, 256 * c + 256)),
    decreases 16 - i,
{
    if i < 16 {
        lemma_subcell(v, h, rec, c, i);
        assert(256 * c + 16 * i + 16 == 256 * c + 16 * (i + 1));
        lemma_subcells(v, h, rec, c, i + 1);
    }
}

/// The cells of a group.
#[verifier::rlimit(40)]
#[verifier::spinoff_prover]
proof fn lemma_cells(v: Vol, h: AgHeader, t: Seq<u8>, c: int)
    requires
        0 <= c <= allocator::cells_in(h),
        forall|k: int|
            0 <= k < allocator::cells_in(h) ==> #[trigger] roottable::cell_of(v, Map::empty(), h, k)
                == Ok::<u8, FsError>(fmt::cell_at(t, k)),
        forall|k: int|
            0 <= k < allocator::cells_in(h) ==> #[trigger] roottable::cell_ref(v, Map::empty(), h, k)
                == Ok::<(u32, u16), FsError>(fsck::table_ref(t, allocator::cells_in(h), k)),
        fsck::cells_counted(v, h.ag_num, t, allocator::cells_in(h), upto(v, h, 256 * c), c) is Ok,
    ensures
        fsck::cells_counted(v, h.ag_num, t, allocator::cells_in(h), upto(v, h, 256 * c), c) == Ok::<
            Tally,
            FsError,
        >(upto(v, h, 256 * allocator::cells_in(h))),
    decreases allocator::cells_in(h) - c,
{
    if c < allocator::cells_in(h) {
        let st = fmt::cell_at(t, c);
        assert(roottable::cell_of(v, Map::empty(), h, c) == Ok::<u8, FsError>(st));
        if st == CELL_REFINED {
            assert(roottable::cell_ref(v, Map::empty(), h, c) == Ok::<(u32, u16), FsError>(
                fsck::table_ref(t, allocator::cells_in(h), c),
            ));
            let rec = roottable::record_of(
                v,
                Map::empty(),
                h.ag_num,
                fsck::table_ref(t, allocator::cells_in(h), c),
            )->Ok_0;
            assert(256 * c + 16 * 0 == 256 * c);
            lemma_subcells(v, h, rec, c, 0);
        } else {
            assert forall|x: int|
                256 * c <= x < 256 * c + 256 implies #[trigger] tables::block_state(
                v,
                Map::empty(),
                h,
                x,
            ) == Ok::<u8, FsError>(st) by {
                assert(x / 256 == c);
            }
            lemma_same(v, h, 256 * c, 256, st);
        }
        assert(256 * c + 256 == 256 * (c + 1));
        lemma_cells(v, h, t, c + 1);
    }
}

/// Where the check can count a group, it counts what the allocator goes by: as
/// free exactly the blocks in the state free, as full exactly those that are
/// full or cut into inode slots, over all cells of the group.
pub proof fn law_tally_counts_the_blocks(v: Vol, h: AgHeader, t: Seq<u8>, n: Tally)
    requires
        v.bs >= 512,
        h.length > 0,
        h.alloc_root + header::table_blocks(h.length, v.bs) <= u32::MAX,
        import::root_table_of(v, h) == Ok::<Seq<u8>, FsError>(t),
        fsck::cells_counted(
            v,
            h.ag_num,
            t,
            header::cell_count(h.length),
            Tally { free: 0, full: 0 },
            0,
        ) == Ok::<Tally, FsError>(n),
    ensures
        n.free == free_count(v, h, 256 * header::cell_count(h.length)),
        n.full == used_count(v, h, 256 * header::cell_count(h.length)),
{
    crate::resize::lemma_table_small(h.length, v.bs);
    law_root_table_is_its_blocks(v, h, t);
    new_tables::lemma_shows(v, h, t);
    assert(upto(v, h, 0) == Tally { free: 0, full: 0 });
    assert(256 * 0 == 0);
    lemma_cells(v, h, t, 0);
}

} // verus!
