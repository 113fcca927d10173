//! Directories that grow: growing a hashed directory keeps what it holds, whether
//! its blocks are mapped by inline extents, by a tree or first by the one and then
//! by the other, so that an entry that was inserted is found and every other entry
//! stays.

use crate::allocator::Pool;
use crate::bucket::Hent;
use crate::dir::{Dh, Dn};
use crate::dir_model::Buckets;
use crate::dirent::Dirent;
use crate::error::FsError;
use crate::extent::Work;
use crate::fmt::{FMT_EXTENT, FMT_TREE};
use crate::header::AgHeader;
use crate::inode::Extent;
use crate::mapping::Mp;
use crate::vol::Vol;
use vstd::prelude::*;

use crate::bucket;
use crate::dir;
use crate::dir_laws;
use crate::extent;
use crate::fmt;
use crate::fs;
use crate::inode;
use crate::mapping;
use crate::mapping_laws;
use crate::spares;
use crate::tables;
use crate::tree_growth;
use crate::tree_laws;
use crate::tree_turn;
use crate::vol;

verus! {

/// A state from which the file grows: each of its blocks is in use and its own, with
/// inline extents or a tree in order, and the tables of the group are sound.
pub open spec fn ready(v: Vol, p: Pool, ag: u32, hdr: AgHeader, m: Mp) -> bool {
    if m.format == FMT_TREE {
        &&& tree_laws::settled(v, p.t, ag, hdr)
        &&& tree_growth::tidy_tree(v, p.t, hdr, m.payload)
        &&& tree_growth::plain(v, p.t, m.payload)
    } else {
        m.format == FMT_EXTENT && mapping_laws::grows_from(
            v,
            p,
            ag,
            hdr,
            inode::extents_of(m.payload),
        )
    }
}

/// No allocation that fails while the tree of the file gets block `fb` spoils the
/// tables.
pub open spec fn steady(v: Vol, p: Pool, ag: u32, m: Mp, fb: int) -> bool {
    if m.format == FMT_TREE {
        tree_growth::steady_tree(v, Work { p, fresh: Seq::empty() }, ag, m.payload, fb, 1)
    } else {
        extent::ensured(v, p, ag, m, fb, 1).1.format == FMT_TREE ==> tree_turn::steady_file(
            v,
            p,
            ag,
            m,
            fb,
            1,
        )
    }
}

/// The mapping of a file that is ready to grow does not depend on its blocks.
pub proof fn lemma_ready_apart(v: Vol, p: Pool, ag: u32, hdr: AgHeader, m: Mp)
    requires
        ready(v, p, ag, hdr, m),
    ensures
        dir_laws::mapped_apart(v, p.t, m),
{
    if m.format == FMT_TREE {
        let t = p.t;
        assert forall|t1: Map<u64, Seq<u8>>, fb: int|
            0 <= fb && dir_laws::rest_kept(v, t, t1, m) implies #[trigger] mapping::map_of(
            v,
            t1,
            m,
            fb,
        ) == mapping::map_of(v, t, m, fb) by {
            assert forall|x: u64| #[trigger] tree_growth::in_tree(v, t, m.payload, x) implies vol::rd(
                v,
                t1,
                x,
            ) == vol::rd(v, t, x) by {
                if dir_laws::is_block(v, t, m, x) {
                    let g = choose|g: int|
                        0 <= g && #[trigger] dir::dir_addr(v, t, m, g) == Ok::<u64, FsError>(x);
                    reveal(tree_growth::plain);
                    assert(tree_laws::address(mapping::tree_map(v, t, m.payload, g)) == Some(x));
                }
            }
            tree_growth::lemma_same_tree(v, t, t1, m.payload);
        }
    }
}

/// A block of the directory file is where its extents lead.
proof fn lemma_addr_maps(v: Vol, t: Map<u64, Seq<u8>>, m: Mp, f: int)
    requires
        m.format == FMT_EXTENT,
        mapping_laws::apart(inode::extents_of(m.payload)),
    ensures
        match dir::dir_addr(v, t, m, f) {
            Ok(x) => mapping_laws::maps(inode::extents_of(m.payload), f, x as int),
            Err(_) => forall|a: int|
                !#[trigger] mapping_laws::maps(inode::extents_of(m.payload), f, a),
        },
{
    mapping_laws::lemma_lookup(inode::extents_of(m.payload), 0, f, u64::MAX as int);
}

/// The address that extents lead to is that of the block.
proof fn lemma_maps_addr(v: Vol, t: Map<u64, Seq<u8>>, m: Mp, f: int, x: u64)
    requires
        m.format == FMT_EXTENT,
        mapping_laws::apart(inode::extents_of(m.payload)),
        mapping_laws::maps(inode::extents_of(m.payload), f, x as int),
    ensures
        dir::dir_addr(v, t, m, f) == Ok::<u64, FsError>(x),
{
    lemma_addr_maps(v, t, m, f);
    if let Ok(y) = dir::dir_addr(v, t, m, f) {
        mapping_laws::lemma_maps_once(inode::extents_of(m.payload), f, x as int, y as int);
    }
}

/// What a file with inline extents keeps as it grows by block `fb` and stays inline.
#[verifier::rlimit(40)]
proof fn lemma_inline_grows(v: Vol, p: Pool, ag: u32, hdr: AgHeader, d: Dn, fb: int, nblk: u64) -> (hdr1:
    AgHeader)
    requires
        d.m.format == FMT_EXTENT,
        ready(v, p, ag, hdr, d.m),
        0 <= fb,
        dir::block_ensured(v, p, ag, d, fb).2 is Ok,
        dir::block_ensured(v, p, ag, d, fb).1.m.format == FMT_EXTENT,
        ({
            let (p1, d1, _) = dir::block_ensured(v, p, ag, d, fb);
            dir::dir_addr(v, p1.t, d1.m, fb) == Ok::<u64, FsError>(nblk)
        }),
    ensures
        ({
            let (p1, d1, _) = dir::block_ensured(v, p, ag, d, fb);
            &&& dir_laws::grown_well(v, p, d, p1, d1, fb, nblk)
            &&& ready(v, p1, ag, hdr1, d1.m)
        }),
{
    let (p1, d1, _) = dir::block_ensured(v, p, ag, d, fb);
    let (q1, m1, rr) = extent::ensured(v, p, ag, d.m, fb, 1);
    let es = inode::extents_of(d.m.payload);
    let es1 = inode::extents_of(m1.payload);
    let hdr1 = mapping_laws::law_growing_keeps_the_file(v, p, ag, hdr, d.m, fb, 1);
    lemma_addr_maps(v, p1.t, m1, fb);
    assert forall|f: int|
        #![trigger dir::dir_addr(v, p1.t, d1.m, f)]
        0 <= f && f != fb && dir::dir_addr(v, p.t, d.m, f) is Ok implies {
        let x = dir::dir_addr(v, p.t, d.m, f)->Ok_0;
        &&& dir::dir_addr(v, p1.t, d1.m, f) == Ok::<u64, FsError>(x)
        &&& vol::rd(v, p1.t, x) == vol::rd(v, p.t, x)
        &&& x != nblk
    } by {
        let x = dir::dir_addr(v, p.t, d.m, f)->Ok_0;
        lemma_addr_maps(v, p.t, d.m, f);
        assert(mapping_laws::maps(es, f, x as int));
        assert(mapping_laws::maps(es1, f, x as int));
        lemma_maps_addr(v, p1.t, m1, f, x);
        assert(mapping_laws::maps(es1, fb, nblk as int));
    }
    assert(dir_laws::mapped_apart(v, p1.t, d1.m));
    hdr1
}

/// What a file with inline extents keeps as it grows by block `fb` and turns into one
/// with a tree.
#[verifier::rlimit(40)]
proof fn lemma_turned_grows(v: Vol, p: Pool, ag: u32, hdr: AgHeader, d: Dn, fb: int, nblk: u64) -> (hdr1:
    AgHeader)
    requires
        v.bs >= 2048,
        d.m.format == FMT_EXTENT,
        ready(v, p, ag, hdr, d.m),
        steady(v, p, ag, d.m, fb),
        0 <= fb,
        dir::block_ensured(v, p, ag, d, fb).2 is Ok,
        dir::block_ensured(v, p, ag, d, fb).1.m.format == FMT_TREE,
        ({
            let (p1, d1, _) = dir::block_ensured(v, p, ag, d, fb);
            dir::dir_addr(v, p1.t, d1.m, fb) == Ok::<u64, FsError>(nblk)
        }),
    ensures
        ({
            let (p1, d1, _) = dir::block_ensured(v, p, ag, d, fb);
            &&& dir_laws::grown_well(v, p, d, p1, d1, fb, nblk)
            &&& ready(v, p1, ag, hdr1, d1.m)
        }),
{
    let (p1, d1, _) = dir::block_ensured(v, p, ag, d, fb);
    let es = inode::extents_of(d.m.payload);
    let hdr1 = tree_turn::law_turning_into_a_tree_keeps_the_file(v, p, ag, hdr, d.m, fb, 1);
    let pl1 = d1.m.payload;
    lemma_ready_apart(v, p1, ag, hdr1, d1.m);
    assert forall|f: int|
        #![trigger dir::dir_addr(v, p1.t, d1.m, f)]
        0 <= f && f != fb && dir::dir_addr(v, p.t, d.m, f) is Ok implies {
        let x = dir::dir_addr(v, p.t, d.m, f)->Ok_0;
        &&& dir::dir_addr(v, p1.t, d1.m, f) == Ok::<u64, FsError>(x)
        &&& vol::rd(v, p1.t, x) == vol::rd(v, p.t, x)
        &&& x != nblk
    } by {
        let x = dir::dir_addr(v, p.t, d.m, f)->Ok_0;
        lemma_addr_maps(v, p.t, d.m, f);
        assert(mapping_laws::maps(es, f, x as int));
        assert(tree_laws::address(mapping::tree_map(v, p1.t, pl1, f)) == Some(x));
        assert(tree_laws::address(mapping::tree_map(v, p1.t, pl1, fb)) == Some(nblk));
        reveal(tree_growth::plain);
    }
    hdr1
}

/// What a file with a tree keeps as it grows by block `fb`.
#[verifier::rlimit(40)]
proof fn lemma_tree_grows(v: Vol, p: Pool, ag: u32, hdr: AgHeader, d: Dn, fb: int, nblk: u64) -> (hdr1:
    AgHeader)
    requires
        v.bs >= 2048,
        d.m.format == FMT_TREE,
        ready(v, p, ag, hdr, d.m),
        steady(v, p, ag, d.m, fb),
        0 <= fb,
        dir::block_ensured(v, p, ag, d, fb).2 is Ok,
        ({
            let (p1, d1, _) = dir::block_ensured(v, p, ag, d, fb);
            dir::dir_addr(v, p1.t, d1.m, fb) == Ok::<u64, FsError>(nblk)
        }),
    ensures
        ({
            let (p1, d1, _) = dir::block_ensured(v, p, ag, d, fb);
            &&& dir_laws::grown_well(v, p, d, p1, d1, fb, nblk)
            &&& ready(v, p1, ag, hdr1, d1.m)
        }),
{
    let (p1, d1, _) = dir::block_ensured(v, p, ag, d, fb);
    let pl = d.m.payload;
    let pl1 = d1.m.payload;
    let hdr1 = tree_growth::law_growing_a_tree_keeps_the_file(v, p, ag, hdr, d.m, fb, 1);
    tree_growth::lemma_plain_grew(v, p.t, hdr, pl, p1.t, hdr1, pl1, fb);
    lemma_ready_apart(v, p1, ag, hdr1, d1.m);
    assert forall|f: int|
        #![trigger dir::dir_addr(v, p1.t, d1.m, f)]
        0 <= f && f != fb && dir::dir_addr(v, p.t, d.m, f) is Ok implies {
        let x = dir::dir_addr(v, p.t, d.m, f)->Ok_0;
        &&& dir::dir_addr(v, p1.t, d1.m, f) == Ok::<u64, FsError>(x)
        &&& vol::rd(v, p1.t, x) == vol::rd(v, p.t, x)
        &&& x != nblk
    } by {
        let x = dir::dir_addr(v, p.t, d.m, f)->Ok_0;
        assert(tree_laws::address(mapping::tree_map(v, p.t, pl, f)) == Some(x));
        assert(tree_growth::block_grew(
            v,
            p.t,
            hdr,
            pl,
            p1.t,
            pl1,
            fb,
            fb + 1,
            None::<int>,
            f,
        ));
        reveal(tree_growth::block_grew);
        reveal(tree_growth::plain);
        tree_growth::lemma_tree_mapped_safe(v, p.t, hdr, pl, f);
        assert(tree_laws::address(mapping::tree_map(v, p1.t, pl1, f)) == Some(x));
        assert(tree_laws::address(mapping::tree_map(v, p1.t, pl1, fb)) == Some(nblk));
    }
    hdr1
}

/// A directory file that is ready to grow grows well, with inline extents, with a
/// tree, and where it turns from the one into the other, and is ready to grow again.
pub proof fn law_directory_grows_well(v: Vol, p: Pool, ag: u32, hdr: AgHeader, d: Dn, fb: int) -> (hdr1:
    AgHeader)
    requires
        v.bs >= 2048,
        ready(v, p, ag, hdr, d.m),
        steady(v, p, ag, d.m, fb),
        0 <= fb,
        dir::block_ensured(v, p, ag, d, fb).2 is Ok,
    ensures
        ({
            let (p1, d1, r1) = dir::block_ensured(v, p, ag, d, fb);
            &&& dir_laws::grown_well(v, p, d, p1, d1, fb, r1->Ok_0)
            &&& ready(v, p1, ag, hdr1, d1.m)
        }),
{
    let (p1, d1, r1) = dir::block_ensured(v, p, ag, d, fb);
    let nblk = r1->Ok_0;
    let (q1, m1, rr) = extent::ensured(v, p, ag, d.m, fb, 1);
    let runs = rr->Ok_0;
    mapping_laws::law_ensured_range_is_mapped(v, p, ag, d.m, fb, 1);
    lemma_first_run(runs, fb);
    assert(mapping_laws::mapped_run(v, p1.t, m1, runs[0]));
    assert(dir::dir_addr(v, p1.t, m1, fb) == Ok::<u64, FsError>(nblk));
    if d.m.format == FMT_TREE {
        lemma_tree_grows(v, p, ag, hdr, d, fb, nblk)
    } else {
        lemma_format(v, p, ag, d.m, fb, 1);
        if m1.format == FMT_TREE {
            lemma_turned_grows(v, p, ag, hdr, d, fb, nblk)
        } else {
            lemma_inline_grows(v, p, ag, hdr, d, fb, nblk)
        }
    }
}

/// The first of the runs that tile one block.
proof fn lemma_first_run(runs: Seq<(u64, u64, u64, bool)>, f: int)
    requires
        mapping_laws::tiles(runs, f, f + 1),
        runs.len() > 0,
    ensures
        runs[0].0 == f,
{
    let (g, _, n, _) = runs.last();
    let head = runs.drop_last();
    lemma_tiles_order(head, f, g as int);
    assert(g + n == f + 1 && n > 0);
    assert(mapping_laws::tiles(head, f, g as int));
    if runs.len() > 1 {
        let (g0, _, n0, _) = head.last();
        lemma_tiles_order(head.drop_last(), f, g0 as int);
        assert(g0 + n0 == g && n0 > 0);
    }
}

/// Runs that tile a range go forward.
proof fn lemma_tiles_order(runs: Seq<(u64, u64, u64, bool)>, from: int, to: int)
    requires
        mapping_laws::tiles(runs, from, to),
    ensures
        from <= to,
    decreases runs.len(),
{
    if runs.len() > 0 {
        lemma_tiles_order(runs.drop_last(), from, runs.last().0 as int);
    }
}

/// Writing a block of a file that is ready to grow leaves it so, and every block
/// where it stands.
proof fn lemma_written(
    v: Vol,
    p: Pool,
    ag: u32,
    hdr: AgHeader,
    m: Mp,
    fb: int,
    blk: u64,
    b: Seq<u8>,
)
    requires
        ready(v, p, ag, hdr, m),
        0 <= fb,
        dir::dir_addr(v, p.t, m, fb) == Ok::<u64, FsError>(blk),
        b.len() == v.bs,
    ensures
        ready(v, Pool { t: p.t.insert(blk, b), ..p }, ag, hdr, m),
        forall|f: int|
            0 <= f ==> #[trigger] dir::dir_addr(v, p.t.insert(blk, b), m, f) == dir::dir_addr(
                v,
                p.t,
                m,
                f,
            ),
{
    let t = p.t;
    let t1 = t.insert(blk, b);
    if m.format == FMT_TREE {
        let pl = m.payload;
        tree_growth::lemma_tree_mapped_safe(v, t, hdr, pl, fb);
        assert(tree_laws::address(mapping::tree_map(v, t, pl, fb)) == Some(blk));
        tables::lemma_foreign_write(v, t, hdr, blk, b);
        assert(!tree_growth::in_tree(v, t, pl, blk)) by {
            reveal(tree_growth::plain);
        }
        assert(tree_growth::stays(v, t, hdr, t1, hdr));
        assert forall|x: u64| #[trigger] tree_growth::in_tree(v, t, pl, x) implies vol::rd(v, t1, x)
            == vol::rd(v, t, x) by {
            assert(x != blk);
        }
        tree_growth::lemma_same_tree(v, t, t1, pl);
        tree_growth::lemma_tree_kept(v, t, hdr, t1, pl);
        assert(fs::header_of(v, t1, ag) == fs::header_of(v, t, ag));
        assert forall|f: int| 0 <= f implies #[trigger] dir::dir_addr(v, t1, m, f)
            == dir::dir_addr(v, t, m, f) by {
            assert(mapping::tree_map(v, t1, pl, f) == mapping::tree_map(v, t, pl, f));
        }
    } else {
        let ext = inode::extents_of(m.payload);
        lemma_addr_maps(v, t, m, fb);
        assert(mapping_laws::maps(ext, fb, blk as int));
        assert(spares::kept_safe(v, t, hdr, blk));
        mapping_laws::lemma_data_written(v, p, ag, hdr, ext, blk, b);
    }
}

/// Storing a bucket or a header of the directory leaves a state from which the
/// file grows, and every block where it stands.
pub proof fn lemma_stores(v: Vol, p: Pool, ag: u32, hdr: AgHeader, m: Mp, fb: int, blk: u64)
    requires
        ready(v, p, ag, hdr, m),
        0 <= fb,
        dir::dir_addr(v, p.t, m, fb) == Ok::<u64, FsError>(blk),
        v.bs >= 24,
    ensures
        forall|depth: u8, es: Seq<Hent>|
            (#[trigger] dir::bucket_to(v, p.t, blk, depth, es)).1 is Ok ==> ready(
                v,
                Pool { t: dir::bucket_to(v, p.t, blk, depth, es).0, ..p },
                ag,
                hdr,
                m,
            ) && forall|f: int|
                0 <= f ==> #[trigger] dir::dir_addr(
                    v,
                    dir::bucket_to(v, p.t, blk, depth, es).0,
                    m,
                    f,
                ) == dir::dir_addr(v, p.t, m, f),
        forall|h: Dh|
            (#[trigger] dir::dh_to(v, p.t, blk, h)).1 is Ok ==> ready(
                v,
                Pool { t: dir::dh_to(v, p.t, blk, h).0, ..p },
                ag,
                hdr,
                m,
            ),
{
    assert forall|depth: u8, es: Seq<Hent>|
        (#[trigger] dir::bucket_to(v, p.t, blk, depth, es)).1 is Ok implies ready(
        v,
        Pool { t: dir::bucket_to(v, p.t, blk, depth, es).0, ..p },
        ag,
        hdr,
        m,
    ) && forall|f: int|
        0 <= f ==> #[trigger] dir::dir_addr(v, dir::bucket_to(v, p.t, blk, depth, es).0, m, f)
            == dir::dir_addr(v, p.t, m, f) by {
        reveal(dir::bucket_to);
        let s = fmt::splice(
            bucket::bucket_body(v.bs as int, depth, es),
            8,
            fmt::be64(dir::next_gen(v, p.t, blk)),
        );
        fmt::lemma_sealed(s);
        lemma_written(v, p, ag, hdr, m, fb, blk, fmt::sealed(s));
    }
    assert forall|h: Dh| (#[trigger] dir::dh_to(v, p.t, blk, h)).1 is Ok implies ready(
        v,
        Pool { t: dir::dh_to(v, p.t, blk, h).0, ..p },
        ag,
        hdr,
        m,
    ) by {
        reveal(dir::dh_to);
        let img = dir::dh_image(v.bs as int, dir::next_gen(v, p.t, blk), h);
        assert(img.len() == v.bs);
        lemma_written(v, p, ag, hdr, m, fb, blk, img);
    }
}

/// A split leaves a state from which the file grows.
#[verifier::rlimit(40)]
proof fn lemma_split_grows(
    v: Vol,
    p: Pool,
    ag: u32,
    hdr: AgHeader,
    d: Dn,
    hblk: u64,
    h: Dh,
    bno: u32,
    bblk: u64,
    ld: u8,
    es: Seq<Hent>,
) -> (hdr1: AgHeader)
    requires
        v.bs >= 2048,
        ready(v, p, ag, hdr, d.m),
        steady(v, p, ag, d.m, 1 + dir_laws::new_bucket(h)),
        dir::dir_addr(v, p.t, d.m, 0) == Ok::<u64, FsError>(hblk),
        dir::dir_addr(v, p.t, d.m, 1 + bno) == Ok::<u64, FsError>(bblk),
        bno != dir_laws::new_bucket(h),
        dir::split(v, p, ag, d, hblk, h, bno, bblk, ld, es).2 is Ok,
    ensures
        ({
            let (p1, d1, r1) = dir::block_ensured(v, p, ag, d, 1 + dir_laws::new_bucket(h));
            let (p2, d2, _) = dir::split(v, p, ag, d, hblk, h, bno, bblk, ld, es);
            &&& r1 is Ok
            &&& dir_laws::grown_well(v, p, d, p1, d1, 1 + dir_laws::new_bucket(h), r1->Ok_0)
            &&& ready(v, p2, ag, hdr1, d2.m)
        }),
{
    reveal(dir::split);
    let new = dir_laws::new_bucket(h);
    let (p1, d1, r1) = dir::block_ensured(v, p, ag, d, 1 + new);
    let nblk = r1->Ok_0;
    let hdr1 = law_directory_grows_well(v, p, ag, hdr, d, 1 + new);
    let m1 = d1.m;
    assert(dir::dir_addr(v, p1.t, m1, 1 + bno) == Ok::<u64, FsError>(bblk));
    assert(dir::dir_addr(v, p1.t, m1, 0) == Ok::<u64, FsError>(hblk));
    let lo = dir::with_bit(es, 63 - ld, false);
    let hi = dir::with_bit(es, 63 - ld, true);
    let t2 = dir::bucket_to(v, p1.t, bblk, (ld + 1) as u8, lo).0;
    lemma_stores(v, p1, ag, hdr1, m1, 1 + bno, bblk);
    let q2 = Pool { t: t2, ..p1 };
    assert(ready(v, q2, ag, hdr1, m1));
    assert(dir::dir_addr(v, t2, m1, 1 + new) == dir::dir_addr(v, p1.t, m1, 1 + new));
    lemma_stores(v, q2, ag, hdr1, m1, 1 + new, nblk);
    let t3 = dir::bucket_to(v, t2, nblk, (ld + 1) as u8, hi).0;
    let q3 = Pool { t: t3, ..p1 };
    assert(ready(v, q3, ag, hdr1, m1));
    assert(dir::dir_addr(v, t3, m1, 0) == dir::dir_addr(v, t2, m1, 0));
    assert(dir::dir_addr(v, t2, m1, 0) == dir::dir_addr(v, p1.t, m1, 0));
    lemma_stores(v, q3, ag, hdr1, m1, 0, hblk);
    hdr1
}

/// Growing turns inline extents at most into a tree.
pub proof fn lemma_format(v: Vol, p: Pool, ag: u32, m: Mp, f: int, n: int)
    requires
        m.format == FMT_EXTENT,
    ensures
        ({
            let (_, m1, _) = extent::ensured(v, p, ag, m, f, n);
            m1.format == FMT_EXTENT || m1.format == FMT_TREE
        }),
{
    let w = extent::Work { p, fresh: Seq::empty() };
    lemma_inline_format(v, w, ag, m, inode::extents_of(m.payload), f, f + n);
}

proof fn lemma_inline_format(
    v: Vol,
    w: extent::Work,
    ag: u32,
    m: Mp,
    es: Seq<Extent>,
    pos: int,
    end: int,
)
    requires
        m.format == FMT_EXTENT,
    ensures
        ({
            let (_, m1, _) = extent::inline_fit(v, w, ag, m, es, pos, end);
            m1.format == FMT_EXTENT || m1.format == FMT_TREE
        }),
    decreases
            if pos < end {
                end - pos
            } else {
                0
            },
{
    reveal(extent::treed);
    if pos < end {
        let (w1, es1, r1) = extent::inline_step(v, w, ag, es, pos, end);
        if let Ok(Some(next)) = r1 {
            if next > pos {
                lemma_inline_format(v, w1, ag, m, es1, next, end);
            }
        }
    }
}

/// No allocation that fails while an insertion splits buckets spoils the tables.
pub open spec fn steady_insert(v: Vol, p: Pool, ag: u32, d: Dn, e: Hent, tries: int) -> bool
    decreases tries,
{
    match dir::dh_of(v, p.t, d.m) {
        Err(_) => true,
        Ok((hblk, h)) => {
            let bno = dir::bucket_for(h, e.hash);
            match dir::bucket_of(v, p.t, d.m, bno) {
                Err(_) => true,
                Ok((bblk, ld, es)) => if bucket::fits_with(v.bs as int, es, e) || tries <= 0 {
                    true
                } else {
                    let (p1, d1, _) = dir::split(v, p, ag, d, hblk, h, bno, bblk, ld, es);
                    &&& steady(v, p, ag, d.m, 1 + dir_laws::new_bucket(h))
                    &&& steady_insert(v, p1, ag, d1, e, tries - 1)
                },
            }
        },
    }
}

/// Every growth of an insertion was a good one, and leaves a state from which the
/// file grows.
#[verifier::rlimit(40)]
pub proof fn lemma_inserts_grow(
    v: Vol,
    p: Pool,
    ag: u32,
    hdr: AgHeader,
    d: Dn,
    hblk: u64,
    h: Dh,
    bs: Buckets,
    e: Hent,
    tries: int,
) -> (hdr1: AgHeader)
    requires
        v.bs >= 2048,
        dir_laws::in_order(v, p.t, d.m, hblk, h, bs),
        ready(v, p, ag, hdr, d.m),
        steady_insert(v, p, ag, d, e, tries),
        dir::hashed_inserted(v, p, ag, d, e, tries).2 is Ok,
    ensures
        dir_laws::all_grown_well(v, p, ag, d, e, tries),
        ({
            let (p1, d1, _) = dir::hashed_inserted(v, p, ag, d, e, tries);
            ready(v, p1, ag, hdr1, d1.m)
        }),
    decreases tries,
{
    dir_laws::lemma_stored_reads(v, p.t, d.m, hblk, h, bs);
    bucket::lemma_slot_bound(e.hash, h.depth as int);
    let s = bucket::slot_of(e.hash, h.depth as int);
    let b = h.table[s];
    assert(dir_laws::bucket_at(v, p.t, d.m, b, bs(b)));
    let ld = bs(b).depth as u8;
    let es = bs(b).es;
    let bblk = dir::dir_addr(v, p.t, d.m, 1 + b)->Ok_0;
    if !bucket::fits_with(v.bs as int, es, e) && tries > 0 {
        let (p1, d1, r1) = dir::split(v, p, ag, d, hblk, h, b, bblk, ld, es);
        assert(h.table.contains(h.table[s]));
        dir_laws::lemma_new_bucket(h);
        let hdr1 = lemma_split_grows(v, p, ag, hdr, d, hblk, h, b, bblk, ld, es);
        let (h1, bs1) = dir_laws::lemma_split_stored(v, p, ag, d, hblk, h, bs, s);
        lemma_inserts_grow(v, p1, ag, hdr1, d1, hblk, h1, bs1, e, tries - 1)
    } else {
        lemma_stores(v, p, ag, hdr, d.m, 1 + b, bblk);
        hdr
    }
}

/// Inserting an entry in a hashed directory, its blocks mapped by inline extents or by
/// a tree: the entry is found under its name, every other name finds what it found,
/// and the directory is in order again, ready to grow. Left out is a group with so
/// little room that an allocation fails halfway through a change of the tables
/// themselves.
pub proof fn law_hashed_directory_insert(
    v: Vol,
    p: Pool,
    uuid: Seq<u8>,
    ag: u32,
    hdr: AgHeader,
    d: Dn,
    hblk: u64,
    h: Dh,
    bs: Buckets,
    e: Dirent,
    other: Seq<char>,
) -> (r: (Dh, Buckets, AgHeader))
    requires
        v.bs >= 2048,
        dir_laws::in_order(v, p.t, d.m, hblk, h, bs),
        ready(v, p, ag, hdr, d.m),
        steady_insert(v, p, ag, d, dir::hashed(uuid, e), dir::MAX_SPLITS as int),
        dir::inserted(v, p, uuid, ag, true, d, e).2 is Ok,
    ensures
        ({
            let (p1, d1, _) = dir::inserted(v, p, uuid, ag, true, d, e);
            &&& dir_laws::in_order(v, p1.t, d1.m, hblk, r.0, r.1)
            &&& ready(v, p1, ag, r.2, d1.m)
            &&& dir::found(v, p1.t, uuid, true, d1.m, e.name) == dir_laws::found_entry(e)
            &&& other != e.name ==> dir::found(v, p1.t, uuid, true, d1.m, other) == dir::found(
                v,
                p.t,
                uuid,
                true,
                d.m,
                other,
            )
        }),
{
    let hdr1 = lemma_inserts_grow(
        v,
        p,
        ag,
        hdr,
        d,
        hblk,
        h,
        bs,
        dir::hashed(uuid, e),
        dir::MAX_SPLITS as int,
    );
    let (h1, bs1) = dir_laws::law_inserted_is_found(v, p, uuid, ag, d, hblk, h, bs, e, other);
    (h1, bs1, hdr1)
}

} // verus!
