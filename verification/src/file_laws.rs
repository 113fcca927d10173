//! What a file holds and where: lookups in a mapping, the bytes that are read,
//! and what an import leaves behind.

use vstd::prelude::*;

use crate::dirent::Dirent;
use crate::error::FsError;
use crate::fmt;
use crate::fmt::{CELL_FREE, CELL_FULL, FMT_EMBED, FMT_EMPTY, FMT_EXTENT, FMT_TREE};
use crate::fresh_laws;
use crate::fs;
use crate::import;
use crate::import_laws;
use crate::inode;
use crate::inode::{Extent, Inode, Ts};
use crate::mapping;
use crate::mapping::{Mapping, Mp};
use crate::mapping_laws;
use crate::mkfs;
use crate::resize::Img;
use crate::superblock::Superblock;
use crate::treenode;
use crate::vol;
use crate::vol::Vol;

verus! {

// --- lookups ------------------------------------------------------------------

/// A file without blocks is one hole.
pub proof fn law_no_blocks_no_run(v: Vol, t: Map<u64, Seq<u8>>, m: Mp, f: int)
    requires
        m.format == FMT_EMPTY || m.format == FMT_EMBED,
    ensures
        mapping::map_of(v, t, m, f) == Ok::<Mapping, FsError>(Mapping::Hole(u64::MAX)),
{
}

/// In a mapping of extents a block lies as far into the run as into the extent
/// that covers it, and the run ends with the extent.
pub proof fn law_extent_is_looked_up(v: Vol, t: Map<u64, Seq<u8>>, m: Mp, f: int, k: int)
    requires
        m.format == FMT_EXTENT,
        0 <= k < inode::extents_of(m.payload).len(),
        ({
            let es = inode::extents_of(m.payload);
            &&& es[k].file_block <= f < es[k].file_block + es[k].blocks
            &&& es[k].blk + (f - es[k].file_block) <= u64::MAX
            &&& forall|j: int|
                0 <= j < k ==> !((#[trigger] es[j]).file_block <= f < es[j].file_block
                    + es[j].blocks)
        }),
    ensures
        ({
            let e = inode::extents_of(m.payload)[k];
            mapping::map_of(v, t, m, f) == Ok::<Mapping, FsError>(
                Mapping::Run {
                    blk: (e.blk + (f - e.file_block)) as u64,
                    len: (e.file_block + e.blocks - f) as u64,
                },
            )
        }),
{
    lemma_extent_found(inode::extents_of(m.payload), 0, f, u64::MAX as int, k);
}

proof fn lemma_extent_found(es: Seq<Extent>, i: int, f: int, next: int, k: int)
    requires
        0 <= i <= k < es.len(),
        es[k].file_block <= f < es[k].file_block + es[k].blocks,
        es[k].blk + (f - es[k].file_block) <= u64::MAX,
        forall|j: int|
            0 <= j < k ==> !((#[trigger] es[j]).file_block <= f < es[j].file_block + es[j].blocks),
    ensures
        mapping::extents_map(es, i, f, next) == Ok::<Mapping, FsError>(
            Mapping::Run {
                blk: (es[k].blk + (f - es[k].file_block)) as u64,
                len: (es[k].file_block + es[k].blocks - f) as u64,
            },
        ),
    decreases es.len() - i,
{
    if i < k {
        assert(!mapping::covers(es[i], f));
        let n = if f < es[i].file_block < next {
            es[i].file_block as int
        } else {
            next
        };
        lemma_extent_found(es, i + 1, f, n, k);
    }
}

/// Where no extent covers a block there is a hole, up to the next block that one
/// starts at.
pub proof fn law_hole_between_extents(v: Vol, t: Map<u64, Seq<u8>>, m: Mp, f: int)
    requires
        m.format == FMT_EXTENT,
        0 <= f <= u64::MAX,
        ({
            let es = inode::extents_of(m.payload);
            forall|j: int|
                0 <= j < es.len() ==> !((#[trigger] es[j]).file_block <= f < es[j].file_block
                    + es[j].blocks)
        }),
    ensures
        ({
            let es = inode::extents_of(m.payload);
            &&& mapping::map_of(v, t, m, f) matches Ok(Mapping::Hole(n))
            &&& forall|j: int|
                0 <= j < es.len() ==> !(f < (#[trigger] es[j]).file_block < f + n)
            &&& f + n == u64::MAX || exists|j: int|
                0 <= j < es.len() && (#[trigger] es[j]).file_block == f + n
        }),
{
    lemma_hole(inode::extents_of(m.payload), 0, f, u64::MAX as int);
}

proof fn lemma_hole(es: Seq<Extent>, i: int, f: int, next: int)
    requires
        0 <= i <= es.len(),
        0 <= f <= next <= u64::MAX,
        forall|j: int|
            0 <= j < es.len() ==> !((#[trigger] es[j]).file_block <= f < es[j].file_block
                + es[j].blocks),
        forall|j: int| 0 <= j < i ==> !(f < (#[trigger] es[j]).file_block < next),
        next == u64::MAX || exists|j: int| 0 <= j < i && (#[trigger] es[j]).file_block == next,
    ensures
        ({
            &&& mapping::extents_map(es, i, f, next) matches Ok(Mapping::Hole(n))
            &&& forall|j: int|
                0 <= j < es.len() ==> !(f < (#[trigger] es[j]).file_block < f + n)
            &&& f + n == u64::MAX || exists|j: int|
                0 <= j < es.len() && (#[trigger] es[j]).file_block == f + n
        }),
    decreases es.len() - i,
{
    if i < es.len() {
        assert(!mapping::covers(es[i], f));
        let n = if f < es[i].file_block < next {
            es[i].file_block as int
        } else {
            next
        };
        lemma_hole(es, i + 1, f, n);
    }
}

/// A child of the root of a tree covers as many blocks as its level says. One
/// that is full maps its run from the first block on and has a hole behind; one
/// that is free is a hole.
pub proof fn law_child_is_looked_up(v: Vol, t: Map<u64, Seq<u8>>, m: Mp, f: int, i: int, c: int)
    requires
        m.format == FMT_TREE,
        m.payload.len() == 128,
        m.payload[0] <= 10,
        c == vstd::arithmetic::power::pow(64, m.payload[0] as nat),
        c > 0,
        0 <= i < 6,
        i * c <= f < i * c + c,
        c <= u64::MAX,
    ensures
        ({
            let ch = treenode::root_at(m.payload, i);
            let rel = f - i * c;
            let got = mapping::map_of(v, t, m, f);
            &&& ch.st == CELL_FREE ==> got == Ok::<Mapping, FsError>(
                Mapping::Hole((c - rel) as u64),
            )
            &&& ch.st == CELL_FULL && rel < ch.blocks && ch.addr + rel <= u64::MAX ==> got == Ok::<
                Mapping,
                FsError,
            >(Mapping::Run { blk: (ch.addr + rel) as u64, len: (ch.blocks - rel) as u64 })
            &&& ch.st == CELL_FULL && rel >= ch.blocks ==> got == Ok::<Mapping, FsError>(
                Mapping::Hole((c - rel) as u64),
            )
        }),
{
    lemma_cover(m.payload[0] as nat);
    vstd::arithmetic::div_mod::lemma_fundamental_div_mod_converse(f, c, i, f - i * c);
}

/// Each level of a tree covers 64 times what the one below does.
proof fn lemma_cover(level: nat)
    ensures
        treenode::cover(level as int) == vstd::arithmetic::power::pow(64, level),
    decreases level,
{
    if level > 0 {
        lemma_cover((level - 1) as nat);
        reveal(vstd::arithmetic::power::pow);
    } else {
        vstd::arithmetic::power::lemma_pow0(64);
    }
}

/// Runs that are collected over a range follow one another over all of it. Each
/// is what the mapping says of its first block, and marked fresh exactly where
/// its blocks are among the fresh ranges.
pub proof fn law_runs_cover_the_range(
    v: Vol,
    t: Map<u64, Seq<u8>>,
    m: Mp,
    fresh: Seq<(u64, u64)>,
    f: int,
    end: int,
    rs: Seq<(u64, u64, u64, bool)>,
)
    requires
        0 <= f <= end <= u64::MAX,
        mapping::runs_from(v, t, m, fresh, f, end, Seq::empty()) == Ok::<
            Seq<(u64, u64, u64, bool)>,
            FsError,
        >(rs),
    ensures
        mapping_laws::tiles(rs, f, end),
        forall|i: int| 0 <= i < rs.len() ==> mapping_laws::mapped_run(v, t, m, #[trigger] rs[i]),
        forall|i: int| 0 <= i < rs.len() ==> fresh_laws::of_one_kind(#[trigger] rs[i], fresh),
{
    assert(mapping_laws::tiles(Seq::<(u64, u64, u64, bool)>::empty(), f, f));
    mapping_laws::lemma_runs_tile(v, t, m, fresh, f, f, end, Seq::empty());
    fresh_laws::lemma_runs_kind(v, t, m, fresh, f, end, Seq::empty());
}

// --- reading ------------------------------------------------------------------

/// Byte `p` of a file in blocks: that of the block it is mapped to, or zero in a
/// hole.
pub open spec fn byte_of(v: Vol, m: Mp, p: int) -> Result<u8, FsError> {
    match mapping::map_of(v, Map::empty(), m, p / v.bs as int) {
        Err(e) => Err(e),
        Ok(Mapping::Hole(_)) => Ok(0u8),
        Ok(Mapping::Run { blk, len: _ }) => match vol::rd0(v, blk) {
            Err(e) => Err(e),
            Ok(b) => Ok(b[p % v.bs as int]),
        },
    }
}

#[verifier::rlimit(40)]
#[verifier::spinoff_prover]
proof fn lemma_blocks_read(v: Vol, m: Mp, done: Seq<u8>, f: int, n: int)
    requires
        v.bs > 0,
        0 <= f <= n,
        done.len() == f * v.bs,
        import::blocks_read(v, m, done, f, n) is Ok,
        forall|p: int| 0 <= p < done.len() ==> byte_of(v, m, p) == Ok::<u8, FsError>(
            #[trigger] done[p],
        ),
    ensures
        ({
            let d = import::blocks_read(v, m, done, f, n)->Ok_0;
            &&& d.len() == n * v.bs
            &&& forall|p: int| 0 <= p < d.len() ==> byte_of(v, m, p) == Ok::<u8, FsError>(
                #[trigger] d[p],
            )
        }),
    decreases n - f,
{
    let bs = v.bs as int;
    if f < n {
        let b = import::block_read(v, m, f)->Ok_0;
        assert(b.len() == bs);
        let next = done + b;
        assert((f + 1) * bs == f * bs + bs) by (nonlinear_arith);
        assert forall|p: int| 0 <= p < next.len() implies byte_of(v, m, p) == Ok::<u8, FsError>(
            #[trigger] next[p],
        ) by {
            if p < done.len() {
                assert(next[p] == done[p]);
            } else {
                let r = p - f * bs;
                vstd::arithmetic::div_mod::lemma_fundamental_div_mod_converse(p, bs, f, r);
                assert(next[p] == b[r]);
            }
        }
        lemma_blocks_read(v, m, next, f + 1, n);
    }
}

/// What is read of a file has the file's size. Byte by byte it is what the
/// mapped blocks hold, with zeros in the holes; a short file is the start of the
/// inode's payload.
pub proof fn law_file_is_its_blocks(v: Vol, i: Inode, d: Seq<u8>)
    requires
        v.bs > 0,
        import::file_data(v, i) == Ok::<Seq<u8>, FsError>(d),
    ensures
        i.format == FMT_EMPTY ==> d.len() == 0,
        i.format != FMT_EMPTY ==> d.len() == i.size,
        i.format == FMT_EMBED ==> forall|p: int| 0 <= p < d.len() ==> #[trigger] d[p]
            == i.payload@[p],
        i.format == FMT_EXTENT || i.format == FMT_TREE ==> forall|p: int|
            0 <= p < d.len() ==> byte_of(v, mapping::mp_of(i), p) == Ok::<u8, FsError>(
                #[trigger] d[p],
            ),
        i.format == FMT_EMPTY || i.format == FMT_EMBED || i.format == FMT_EXTENT || i.format
            == FMT_TREE,
{
    if i.format == FMT_EXTENT || i.format == FMT_TREE {
        let n = fmt::ceil_div(i.size as int, v.bs as int);
        let m = mapping::mp_of(i);
        fmt::lemma_ceil_div(i.size as int, v.bs as int);
        assert(0 * v.bs == 0) by (nonlinear_arith);
        lemma_blocks_read(v, m, Seq::empty(), 0, n);
        let all = import::blocks_read(v, m, Seq::empty(), 0, n)->Ok_0;
        assert forall|p: int| 0 <= p < d.len() implies byte_of(v, m, p) == Ok::<u8, FsError>(
            #[trigger] d[p],
        ) by {
            assert(d[p] == all[p]);
        }
    }
}

/// A file can be read wherever all of its blocks can.
pub proof fn law_readable_blocks_make_a_file(v: Vol, i: Inode)
    requires
        v.bs > 0,
        i.format == FMT_EXTENT || (i.format == FMT_TREE && v.bs >= 2048),
        (i.size + v.bs) <= usize::MAX,
        forall|p: int| 0 <= p < i.size + v.bs ==> #[trigger] byte_of(v, mapping::mp_of(i), p) is Ok,
    ensures
        import::file_data(v, i) is Ok,
{
    let bs = v.bs as int;
    let n = fmt::ceil_div(i.size as int, bs);
    fmt::lemma_ceil_div(i.size as int, bs);
    assert(n * bs <= i.size + bs) by (nonlinear_arith)
        requires
            i.size > 0 ==> (n - 1) * bs < i.size,
            i.size == 0 ==> n == 0,
            bs > 0,
    ;
    lemma_all_read(v, mapping::mp_of(i), Seq::empty(), 0, n, i.size + bs);
}

proof fn lemma_all_read(v: Vol, m: Mp, done: Seq<u8>, f: int, n: int, lim: int)
    requires
        v.bs > 0,
        0 <= f <= n,
        n * v.bs <= lim,
        forall|p: int| 0 <= p < lim ==> #[trigger] byte_of(v, m, p) is Ok,
    ensures
        import::blocks_read(v, m, done, f, n) is Ok,
    decreases n - f,
{
    let bs = v.bs as int;
    if f < n {
        let p = f * bs;
        assert(0 <= p && p < n * bs) by (nonlinear_arith)
            requires
                p == f * bs,
                0 <= f < n,
                bs > 0,
        ;
        vstd::arithmetic::div_mod::lemma_fundamental_div_mod_converse(p, bs, f, 0);
        assert(byte_of(v, m, p) is Ok);
        let b = import::block_read(v, m, f)->Ok_0;
        lemma_all_read(v, m, done + b, f + 1, n, lim);
    }
}

// --- names --------------------------------------------------------------------

/// The entry of a name is the first one that has it.
pub proof fn law_first_entry_of_the_name(es: Seq<Dirent>, name: Seq<char>, k: int)
    ensures
        0 <= k < es.len() && es[k].name == name && (forall|j: int|
            0 <= j < k ==> (#[trigger] es[j]).name != name) ==> import::named(es, name) == Some(
            es[k].ino,
        ),
        (forall|j: int| 0 <= j < es.len() ==> (#[trigger] es[j]).name != name) ==> import::named(
            es,
            name,
        ) is None,
    decreases es.len(),
{
    if es.len() > 0 {
        let t = es.skip(1);
        law_first_entry_of_the_name(t, name, k - 1);
        assert(forall|j: int| 0 <= j < t.len() ==> #[trigger] t[j] == es[j + 1]);
        if forall|j: int| 0 <= j < es.len() ==> (#[trigger] es[j]).name != name {
            assert forall|j: int| 0 <= j < t.len() implies (#[trigger] t[j]).name != name by {
                assert(t[j] == es[j + 1]);
            }
            assert(es[0].name != name);
        }
        if 0 <= k < es.len() && es[k].name == name && (forall|j: int|
            0 <= j < k ==> (#[trigger] es[j]).name != name) {
            if k > 0 {
                assert(es[0].name != name);
                assert forall|j: int| 0 <= j < k - 1 implies (#[trigger] t[j]).name != name by {
                    assert(t[j] == es[j + 1]);
                }
                assert(t[k - 1] == es[k]);
            }
        }
    }
}

// --- inode slots --------------------------------------------------------------

/// The slot for a new inode is the first of all zeros in the block of the root
/// inode.
#[verifier::rlimit(40)]
#[verifier::spinoff_prover]
pub proof fn law_first_empty_slot_is_taken(v: Vol, isz: u16, root: u64, ino: u64)
    requires
        0 < isz <= v.bs,
        import::slot_found(v, isz, root) == Ok::<u64, FsError>(ino),
    ensures
        ({
            let slots = v.bs / isz as u32;
            let at = root % 0x1_0000_0000;
            let k = ino % 0x1_0000_0000;
            &&& ino / 0x1_0000_0000 == root / 0x1_0000_0000
            &&& at - at % slots as u64 <= k < at - at % slots as u64 + slots
            &&& fs::slot_bytes(v, isz, ino) matches Ok(b) && (forall|p: int|
                0 <= p < 256 ==> #[trigger] b[p] == 0)
            &&& forall|j: int|
                at - at % slots as u64 <= j < k ==> (fs::slot_bytes(
                    v,
                    isz,
                    #[trigger] fmt::addr_of(fmt::addr_ag(root), j as u32),
                ) matches Ok(b) && exists|p: int| 0 <= p < 256 && #[trigger] b[p] != 0)
        }),
{
    let slots = v.bs / isz as u32;
    let at = fmt::addr_local(root);
    let ag = fmt::addr_ag(root);
    assert(slots >= 1) by (nonlinear_arith)
        requires
            slots == v.bs as int / (isz as int),
            0 < isz <= v.bs,
    ;
    fmt::law_address_halves(0, 0, root);
    fmt::law_address_halves(0, 0, ino);
    let base = at - at % slots;
    assert(0 <= at % slots <= at) by (nonlinear_arith)
        requires
            at >= 0,
            slots >= 1,
    ;
    lemma_first_spare(v, isz, ag, base, base + slots);
}

#[verifier::rlimit(40)]
#[verifier::spinoff_prover]
proof fn lemma_first_spare(v: Vol, isz: u16, ag: u32, k: int, end: int)
    requires
        0 <= k <= end <= u32::MAX,
        import::spare_slot(v, isz, ag, k, end) is Ok,
    ensures
        ({
            let ino = import::spare_slot(v, isz, ag, k, end)->Ok_0;
            let n = fmt::addr_local(ino);
            &&& fmt::addr_ag(ino) == ag
            &&& k <= n < end
            &&& fs::slot_bytes(v, isz, ino) matches Ok(b) && (forall|p: int|
                0 <= p < 256 ==> #[trigger] b[p] == 0)
            &&& forall|j: int|
                k <= j < n ==> (fs::slot_bytes(v, isz, #[trigger] fmt::addr_of(ag, j as u32))
                    matches Ok(b) && exists|p: int| 0 <= p < 256 && #[trigger] b[p] != 0)
        }),
    decreases end - k,
{
    fmt::law_address_halves(ag, k as u32, 0);
    let b = fs::slot_bytes(v, isz, fmt::addr_of(ag, k as u32))->Ok_0;
    if !fmt::zero_bytes(b, 0, 256) {
        lemma_first_spare(v, isz, ag, k + 1, end);
        assert(exists|p: int| 0 <= p < 256 && #[trigger] b[p] != 0);
    }
}

// --- importing ----------------------------------------------------------------

/// An import takes blocks off the free ones only for a file that does not fit
/// its inode: the whole cells of 256 blocks that hold it, and no more. Nothing
/// else of the superblock changes but its generation, and nothing of the map.
#[verifier::rlimit(40)]
#[verifier::spinoff_prover]
pub proof fn law_import_counts_its_blocks(
    x: Img,
    name: Seq<char>,
    data: Seq<u8>,
    mode: u16,
    now: Ts,
    k: int,
)
    requires
        x.sb.blocksize > 0,
        (k - 1) * (256 * x.sb.blocksize) < data.len() <= k * (256 * x.sb.blocksize),
        import::imported(x, name, data, mode, now).1 is Ok,
    ensures
        ({
            let u = import::imported(x, name, data, mode, now).0;
            &&& u.m == x.m
            &&& data.len() <= 128 ==> u.sb == x.sb
            &&& data.len() > 128 ==> {
                &&& u.sb.free_blocks + k * 256 == x.sb.free_blocks
                &&& u.sb.full_blocks == x.sb.full_blocks + k * 256
                &&& u.sb == (Superblock {
                    gen: u.sb.gen,
                    free_blocks: u.sb.free_blocks,
                    full_blocks: u.sb.full_blocks,
                    ..x.sb
                })
            }
        }),
{
    import_laws::lemma_imported_shape(x, name, data, mode, now);
    reveal(import::data_stored);
    reveal(import::cells_allocated);
    reveal(import::entry_stored);
    let bs = x.sb.blocksize;
    let len = data.len() as int;
    if len > 128 {
        let c = 256 * bs;
        fmt::lemma_ceil_div(len, c);
        let q = fmt::ceil_div(len, c);
        assert(q == k) by (nonlinear_arith)
            requires
                (q - 1) * c < len <= q * c,
                (k - 1) * c < len <= k * c,
                c > 0,
        ;
    }
}

/// A file that does not fit its inode takes whole cells, as many as it needs, in
/// the group of its inode; its one extent has the blocks that hold it.
#[verifier::rlimit(40)]
#[verifier::spinoff_prover]
pub proof fn law_large_file_takes_whole_cells(
    x: Img,
    ino: u64,
    data: Seq<u8>,
    mode: u16,
    now: Ts,
    k: int,
)
    requires
        x.sb.blocksize > 0,
        128 < data.len() <= u64::MAX,
        (k - 1) * (256 * x.sb.blocksize) < data.len() <= k * (256 * x.sb.blocksize),
        import::data_stored(x, ino, data, mode, now).1 is Ok,
        k * 256 <= u32::MAX,
    ensures
        ({
            let i = import::data_stored(x, ino, data, mode, now).1->Ok_0;
            let es = inode::extents_of(i.payload@);
            &&& i.nblocks == k * 256
            &&& es.len() == 1
            &&& es[0].file_block == 0
            &&& es[0].blk / 0x1_0000_0000 == ino / 0x1_0000_0000
            &&& es[0].blk % 256 == 0
            &&& (es[0].blocks - 1) * x.sb.blocksize < data.len() <= es[0].blocks * x.sb.blocksize
        }),
{
    reveal(import::data_stored);
    reveal(import::cells_allocated);
    let bs = x.sb.blocksize;
    let len = data.len() as int;
    let c = 256 * bs;
    fmt::lemma_ceil_div(len, c);
    let q = fmt::ceil_div(len, c);
    assert(q == k) by (nonlinear_arith)
        requires
            (q - 1) * c < len <= q * c,
            (k - 1) * c < len <= k * c,
            c > 0,
    ;
    fmt::lemma_ceil_div(len, bs as int);
    let n = fmt::ceil_div(len, bs as int);
    assert(0 < n <= k * 256) by (nonlinear_arith)
        requires
            len > 0,
            (n - 1) * bs < len,
            len <= n * bs,
            len <= k * (256 * bs),
            bs > 0,
    ;
    let (y, r) = import::cells_allocated(x, fmt::addr_ag(ino), k);
    let blk = r->Ok_0;
    lemma_cell_start(x, fmt::addr_ag(ino), k);
    let e = Extent { file_block: 0, blk, blocks: n as u32 };
    inode::law_extents_round_trip(seq![e]);
    mkfs::lemma_payload(inode::extents_image(seq![e]));
}

/// Cells that are taken start on a cell of the group.
proof fn lemma_cell_start(x: Img, ag: u32, k: int)
    requires
        import::cells_allocated(x, ag, k).1 is Ok,
    ensures
        ({
            let blk = import::cells_allocated(x, ag, k).1->Ok_0;
            &&& blk / 0x1_0000_0000 == ag
            &&& blk % 256 == 0
        }),
{
    reveal(import::cells_allocated);
    let v = Vol { bytes: x.d.bytes, groups: x.m.entries, bs: x.sb.blocksize };
    let h = fs::header_of(v, Map::empty(), ag)->Ok_0;
    let t = import::root_table_of(v, h)->Ok_0;
    let cells = crate::header::cell_count(h.length);
    let s = import::first_free_run(t, cells, k)->0;
    assert(import::is_first_run(t, cells, k, s));
    fmt::lemma_ceil_div(h.length as int, 256);
    fmt::law_address_halves(ag, (s * 256) as u32, 0);
}

/// Cells are taken from the first run of free ones that is long enough, and where
/// there is one they are.
pub proof fn law_first_free_run_is_taken(t: Seq<u8>, cells: int, k: int, s: int, q: int)
    requires
        k > 0,
        0 <= s,
        s + k <= cells,
        forall|c: int| s <= c < s + k ==> #[trigger] fmt::cell_at(t, c) == CELL_FREE,
    ensures
        ({
            &&& import::first_free_run(t, cells, k) matches Some(r)
            &&& 0 <= r <= s
            &&& forall|c: int| r <= c < r + k ==> #[trigger] fmt::cell_at(t, c) == CELL_FREE
            &&& 0 <= q < r ==> exists|c: int|
                q <= c < q + k && #[trigger] fmt::cell_at(t, c) != CELL_FREE
        }),
{
    assert(import::free_run(t, s, k));
    lemma_least_run(t, cells, k, s);
    let r = import::first_free_run(t, cells, k)->0;
    assert(import::is_first_run(t, cells, k, r));
    if r > s {
        assert(!import::free_run(t, s, k));
    }
    assert(import::free_run(t, r, k));
    if 0 <= q < r {
        assert(!import::free_run(t, q, k));
    }
}

proof fn lemma_least_run(t: Seq<u8>, cells: int, k: int, s: int)
    requires
        0 <= s,
        s + k <= cells,
        import::free_run(t, s, k),
    ensures
        exists|r: int| import::is_first_run(t, cells, k, r),
    decreases s,
{
    if exists|q: int| 0 <= q < s && #[trigger] import::free_run(t, q, k) {
        let q = choose|q: int| 0 <= q < s && #[trigger] import::free_run(t, q, k);
        lemma_least_run(t, cells, k, q);
    } else {
        assert(import::is_first_run(t, cells, k, s));
    }
}

} // verus!
