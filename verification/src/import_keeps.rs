//! What an import leaves alone: every block in use, and with these the files
//! that were there before.

use crate::dirent::Dirent;
use crate::error::FsError;
use crate::fmt::{
    CELL_FREE, CELL_REFINED, DT_FILE, FMT_EMBED, FMT_EMPTY, FMT_EXTENT, FMT_TREE, ROOT_FANOUT,
};
use crate::header::AgHeader;
use crate::inode::{Extent, Inode, Ts};
use crate::mapping::{Mapping, Mp};
use crate::resize::Img;
use crate::superblock::Superblock;
use crate::treenode::{Child, MAX_LEVEL};
use crate::vol::Vol;
use vstd::prelude::*;

use crate::device;
use crate::dirent;
use crate::fmt;
use crate::fs;
use crate::header;
use crate::import;
use crate::import_laws;
use crate::inode;
use crate::journal_laws;
use crate::mapping;
use crate::mkfs;
use crate::resize;
use crate::tree_growth;
use crate::tree_laws;
use crate::treenode;
use crate::vol;

verus! {

/// Block `blk` can be read and is in use for what files hold: it lies in no
/// free cell of the group that files are imported into, is not part of that
/// group's root table or header, and holds neither the superblock nor the
/// inodes of the root directory.
pub open spec fn in_use(x: Img, blk: u64) -> bool {
    let v = import_laws::vol_of(x);
    let ag = import_laws::root_ag(x);
    &&& vol::rd0(v, blk) is Ok
    &&& blk != import_laws::root_block(x)
    &&& journal_laws::block_off_superblock(x.m.entries, x.sb.blocksize, blk)
    &&& fs::header_of(v, Map::empty(), ag) matches Ok(h) ==> {
        &&& blk != fmt::addr_of(h.ag_num, fs::header_local(h.ag_num))
        &&& forall|i: int|
            0 <= i < header::table_blocks(h.length, x.sb.blocksize) ==> #[trigger] import::run_addr(
                h.ag_num,
                h.alloc_root,
                i,
            ) != Ok::<u64, FsError>(blk)
        &&& import::root_table_of(v, h) matches Ok(t) ==> fmt::addr_ag(blk) == ag ==> fmt::cell_at(
            t,
            fmt::addr_local(blk) as int / 256,
        ) != CELL_FREE
    }
}

/// Allocating cells keeps a block in use, and does not give it away.
proof fn lemma_cells_keep(x: Img, count: int, b: u64)
    requires
        import_laws::importable(x),
        count > 0,
        in_use(x, b),
        import::cells_allocated(x, import_laws::root_ag(x), count).1 is Ok,
    ensures
        ({
            let (y, r) = import::cells_allocated(x, import_laws::root_ag(x), count);
            let blk = r->Ok_0;
            &&& y.m == x.m
            &&& y.sb.blocksize == x.sb.blocksize
            &&& vol::rd0(import_laws::vol_of(y), b) == vol::rd0(import_laws::vol_of(x), b)
            &&& forall|k: int|
                0 <= k < count * 256 ==> #[trigger] import::run_addr(
                    fmt::addr_ag(blk),
                    fmt::addr_local(blk),
                    k,
                ) != Ok::<u64, FsError>(b)
        }),
{
    reveal(import::cells_allocated);
    let bs = x.sb.blocksize;
    let gs = x.m.entries;
    let ag = import_laws::root_ag(x);
    let v = import_laws::vol_of(x);
    let h = fs::header_of(v, Map::empty(), ag)->Ok_0;
    let t = import::root_table_of(v, h)->Ok_0;
    let cells = header::cell_count(h.length);
    let s = import::first_free_run(t, cells, count)->0;
    assert(import::is_first_run(t, cells, count, s));
    fmt::lemma_ceil_div(h.length as int, 256);
    let n = count * 256;
    fmt::law_address_halves(ag, (s * 256) as u32, 0);
    let t1 = resize::cells_filled(t, s, s + count, fmt::CELL_FULL);
    let (d1, r1) = device::dev_writes(x.d, import::run_writes(gs, bs, h.ag_num, h.alloc_root, t1));
    import_laws::lemma_table_len(v, h);
    import_laws::lemma_filled_len(t, s, s + count);
    import_laws::lemma_run_writes_keep(x.d, gs, bs, h.ag_num, h.alloc_root, t1, b);
    let h1 = AgHeader {
        free_blocks: (h.free_blocks - n) as u32,
        full_blocks: (h.full_blocks + n) as u32,
        gen: (h.gen + 1) as u64,
        ..h
    };
    let items = seq![
        (
            vol::place(gs, bs, fmt::addr_of(h.ag_num, fs::header_local(h.ag_num))),
            fs::header_block(h1, bs),
        ),
    ];
    let (d2, r2) = device::dev_writes(d1, items);
    let p = vol::place(gs, bs, b)->Ok_0 as int;
    header::law_header_round_trip(h1, Seq::empty());
    assert(fs::header_block(h1, bs).len() == bs);
    assert forall|i: int| 0 <= i < items.len() implies ((#[trigger] items[i]).0 matches Ok(q)
        ==> journal_laws::apart(p, bs as int, q as int, items[i].1.len() as int)) by {
        assert(vol::place(gs, bs, b) is Ok);
    }
    journal_laws::lemma_writes_frame(d1, items, p, bs as int);
    let sb2 = Superblock {
        free_blocks: (x.sb.free_blocks - n) as u64,
        full_blocks: (x.sb.full_blocks + n) as u64,
        ..x.sb
    };
    import_laws::lemma_super_keeps(d2, sb2, gs, b);
    let local = fmt::addr_local(b) as int;
    assert forall|k: int| 0 <= k < count * 256 implies #[trigger] import::run_addr(
        ag,
        (s * 256) as u32,
        k,
    ) != Ok::<u64, FsError>(b) by {
        if let Ok(a) = import::run_addr(ag, (s * 256) as u32, k) {
            fmt::law_address_halves(ag, (s * 256 + k) as u32, 0);
            if a == b {
                assert(local == s * 256 + k);
                let c = local / 256;
                assert(s <= c < s + count);
                assert(fmt::cell_at(t, c) == CELL_FREE);
            }
        }
    }
}

/// Storing the data of a file keeps a block in use.
proof fn lemma_data_keeps(x: Img, ino: u64, data: Seq<u8>, mode: u16, now: Ts, b: u64)
    requires
        import_laws::importable(x),
        fmt::addr_ag(ino) == import_laws::root_ag(x),
        import::data_stored(x, ino, data, mode, now).1 is Ok,
        in_use(x, b),
    ensures
        vol::rd0(import_laws::vol_of(import::data_stored(x, ino, data, mode, now).0), b)
            == vol::rd0(import_laws::vol_of(x), b),
{
    let bs = x.sb.blocksize;
    let len = data.len() as int;
    if len > 128 {
        import_laws::lemma_data_shape(x, ino, data, mode, now);
        let cells = fmt::ceil_div(len, 256 * bs);
        let n = fmt::ceil_div(len, bs as int);
        fmt::lemma_ceil_div(len, bs as int);
        import::lemma_cells_fit(x, import_laws::root_ag(x), cells, len);
        assert(cells > 0) by (nonlinear_arith)
            requires
                0 < n <= cells * 256,
        ;
        lemma_cells_keep(x, cells, b);
        let x1 = import::cells_allocated(x, import_laws::root_ag(x), cells).0;
        let blk = import::cells_allocated(x, import_laws::root_ag(x), cells).1->Ok_0;
        import_laws::lemma_run_writes_keep(
            x1.d,
            x.m.entries,
            bs,
            fmt::addr_ag(blk),
            fmt::addr_local(blk),
            data,
            b,
        );
    } else {
        reveal(import::data_stored);
    }
}

/// What an import does, seen from the inode of another file and from a block
/// in use.
#[verifier::rlimit(40)]
proof fn lemma_import_keeps(
    x: Img,
    name: Seq<char>,
    data: Seq<u8>,
    mode: u16,
    now: Ts,
    other: u64,
    b: u64,
)
    requires
        import_laws::importable(x),
        vol::rd0(import_laws::vol_of(x), import_laws::root_block(x)) is Ok,
        fmt::ceil_div(data.len() as int, x.sb.blocksize as int) * x.sb.blocksize <= usize::MAX,
        import::imported(x, name, data, mode, now).1 is Ok,
        fmt::addr_ag(other) == import_laws::root_ag(x),
        fmt::addr_local(other) / (x.sb.blocksize / x.sb.inodesize as u32) == fmt::addr_local(
            x.sb.root_ino,
        ) / (x.sb.blocksize / x.sb.inodesize as u32),
        other != x.sb.root_ino,
        fs::inode_of(import_laws::vol_of(x), x.sb.inodesize, other) is Ok,
    ensures
        ({
            let u = import::imported(x, name, data, mode, now).0;
            &&& u.m == x.m
            &&& u.sb.blocksize == x.sb.blocksize
            &&& u.sb.inodesize == x.sb.inodesize
            &&& fs::inode_of(import_laws::vol_of(u), x.sb.inodesize, other) == fs::inode_of(
                import_laws::vol_of(x),
                x.sb.inodesize,
                other,
            )
            &&& in_use(x, b) ==> vol::rd0(import_laws::vol_of(u), b) == vol::rd0(
                import_laws::vol_of(x),
                b,
            )
        }),
{
    let bs = x.sb.blocksize;
    let isz = x.sb.inodesize;
    let root = x.sb.root_ino;
    let v = import_laws::vol_of(x);
    import_laws::lemma_imported_shape(x, name, data, mode, now);
    let ino = import::imported(x, name, data, mode, now).1->Ok_0;
    import_laws::lemma_slot_found(v, isz, root);
    lemma_slot_is_free(v, isz, root, other);
    let ag = import_laws::root_ag(x);
    let a = fmt::addr_local(ino);
    let r = fmt::addr_local(root);
    let c = fmt::addr_local(other);
    fmt::law_address_halves(0, 0, root);
    fmt::law_address_halves(0, 0, other);
    import_laws::lemma_spot(bs, isz, ag, a);
    import_laws::lemma_spot(bs, isz, ag, r);
    import_laws::lemma_spot(bs, isz, ag, c);
    let y = import::data_stored(x, ino, data, mode, now).0;
    let i = import::data_stored(x, ino, data, mode, now).1->Ok_0;
    import_laws::lemma_data_stored(x, ino, data, mode, now, import_laws::vol_of(y));
    if in_use(x, b) {
        lemma_data_keeps(x, ino, data, mode, now, b);
    }
    import_laws::lemma_slot_of_block(v, import_laws::vol_of(y), isz, ag, c);
    import_laws::lemma_inode_stored(y, ag, a, i);
    let z = import::inode_stored(y, ino, i).0;
    assert(fs::slot_bytes(import_laws::vol_of(z), isz, other) == fs::slot_bytes(v, isz, other));
    let e = Dirent { ino, ftype: DT_FILE, name };
    import_laws::lemma_entry_shape(z, e, now);
    let r0 = fs::inode_of(import_laws::vol_of(z), isz, root)->Ok_0;
    let p = if r0.format == FMT_EMPTY {
        fmt::zeros(128)
    } else {
        r0.payload@
    };
    let r1 = Inode {
        format: if r0.format == FMT_EMPTY {
            FMT_EMBED
        } else {
            r0.format
        },
        payload: mkfs::payload(dirent::dir_appended(p, e)->Ok_0),
        mtime: now,
        ctime: now,
        ..r0
    };
    import_laws::lemma_inode_stored(z, ag, r, r1);
    let w = import::inode_stored(z, root, r1).0;
    assert(fs::slot_bytes(import_laws::vol_of(w), isz, other) == fs::slot_bytes(v, isz, other));
    let u = Img { d: device::dev_sync(w.d), ..w };
    assert(import_laws::vol_of(u) == import_laws::vol_of(w));
}

/// The slot for a new inode is not one that holds an inode.
proof fn lemma_slot_is_free(v: Vol, isz: u16, root: u64, other: u64)
    requires
        import_laws::slots_fit(v.bs, isz),
        import::slot_found(v, isz, root) is Ok,
        fs::inode_of(v, isz, other) is Ok,
    ensures
        import::slot_found(v, isz, root)->Ok_0 != other,
{
    let slots = (v.bs / isz as u32) as int;
    let at = fmt::addr_local(root) as int;
    assert(slots >= 1) by (nonlinear_arith)
        requires
            slots == v.bs as int / (isz as int),
            0 < isz <= v.bs,
    ;
    let base = at - at % slots;
    assert(0 <= at % slots <= at) by (nonlinear_arith)
        requires
            at >= 0,
            slots >= 1,
    ;
    import_laws::lemma_spare_slot(v, isz, fmt::addr_ag(root), base, base + slots);
    let ino = import::slot_found(v, isz, root)->Ok_0;
    if ino == other {
        // a valid inode starts with its magic, a free slot with zeros
        let b = fs::slot_bytes(v, isz, other)->Ok_0;
        assert(b[0] == 0 && b[1] == 0);
        assert(fmt::u16_at(b.take(256), 0) == 0);
    }
}

/// Every block of the extents is in use.
pub open spec fn extents_in_use(x: Img, es: Seq<Extent>) -> bool {
    forall|k: int, i: int|
        0 <= k < es.len() && 0 <= i < es[k].blocks ==> {
            let r = #[trigger] import::run_addr(
                fmt::addr_ag(es[k].blk),
                fmt::addr_local(es[k].blk),
                i,
            );
            r is Ok && in_use(x, r->Ok_0)
        }
}

/// Every node of the tree with the root `pl`, and every block that it maps, is in use.
pub open spec fn tree_in_use(x: Img, pl: Seq<u8>) -> bool {
    let v = import_laws::vol_of(x);
    &&& forall|a: u64| #[trigger]
        tree_growth::in_tree(v, Map::empty(), pl, a) ==> in_use(x, a)
    &&& forall|f: int|
        0 <= f ==> (#[trigger] mapping::tree_map(v, Map::empty(), pl, f) matches Ok(Mapping::Run {
            blk,
            len: _,
        }) ==> in_use(x, blk))
}

/// A file whose blocks read the same reads the same.
proof fn lemma_blocks_same(v: Vol, w: Vol, m: Mp, done: Seq<u8>, f: int, n: int)
    requires
        0 <= f,
        forall|k: int|
            f <= k < n ==> #[trigger] import::block_read(w, m, k) == import::block_read(v, m, k),
    ensures
        import::blocks_read(w, m, done, f, n) == import::blocks_read(v, m, done, f, n),
    decreases n - f,
{
    if f < n {
        assert(import::block_read(w, m, f) == import::block_read(v, m, f));
        if let Ok(b) = import::block_read(v, m, f) {
            lemma_blocks_same(v, w, m, done + b, f + 1, n);
        }
    }
}

/// A tree whose nodes read the same maps the same.
proof fn lemma_child_same(v: Vol, w: Vol, ch: Child, rel: int, level: int)
    requires
        0 <= rel < treenode::cover(level),
        0 <= level,
        forall|a: u64| #[trigger]
            tree_growth::below(v, Map::empty(), ch, level, a) ==> vol::rd0(w, a) == vol::rd0(v, a),
    ensures
        mapping::child_map(w, Map::empty(), ch, rel, level) == mapping::child_map(
            v,
            Map::empty(),
            ch,
            rel,
            level,
        ),
    decreases level,
{
    if ch.st == CELL_REFINED && level > 0 {
        assert(tree_growth::below(v, Map::empty(), ch, level, ch.addr));
        let r = treenode::node_level_of(v, Map::empty(), ch.addr, level - 1);
        assert(treenode::node_level_of(w, Map::empty(), ch.addr, level - 1) == r);
        if let Ok(b) = r {
            let c = treenode::cover(level - 1);
            let j = rel / c;
            treenode::lemma_cover_monotonic(level - 1, level);
            mapping::lemma_child_index(rel, c, 64);
            let k = tree_growth::kid(v, Map::empty(), ch, level, j);
            assert forall|a: u64| #[trigger]
                tree_growth::below(v, Map::empty(), k, level - 1, a) implies vol::rd0(w, a)
                == vol::rd0(v, a) by {
                assert(tree_growth::below(v, Map::empty(), ch, level, a));
            }
            lemma_child_same(v, w, k, rel % c, level - 1);
        }
    }
}

/// An import keeps the other files of the root directory: inode and contents
/// are what they were.
pub proof fn law_import_keeps_other_files(
    x: Img,
    name: Seq<char>,
    data: Seq<u8>,
    mode: u16,
    now: Ts,
    other: u64,
)
    requires
        import_laws::importable(x),
        vol::rd0(import_laws::vol_of(x), import_laws::root_block(x)) is Ok,
        fmt::ceil_div(data.len() as int, x.sb.blocksize as int) * x.sb.blocksize <= usize::MAX,
        import::imported(x, name, data, mode, now).1 is Ok,
        other != x.sb.root_ino,
        fmt::addr_ag(other) == import_laws::root_ag(x),
        fmt::addr_local(other) / (x.sb.blocksize / x.sb.inodesize as u32) == fmt::addr_local(
            x.sb.root_ino,
        ) / (x.sb.blocksize / x.sb.inodesize as u32),
        fs::inode_of(import_laws::vol_of(x), x.sb.inodesize, other) matches Ok(i) && (i.format
            == FMT_EXTENT ==> extents_in_use(x, inode::extents_of(i.payload@))) && (i.format
            == FMT_TREE ==> tree_in_use(x, i.payload@)),
    ensures
        ({
            let u = import::imported(x, name, data, mode, now).0;
            let (v, w) = (import_laws::vol_of(x), import_laws::vol_of(u));
            &&& fs::inode_of(w, u.sb.inodesize, other) == fs::inode_of(v, x.sb.inodesize, other)
            &&& import::file_of(w, u.sb.inodesize, other) == import::file_of(
                v,
                x.sb.inodesize,
                other,
            )
        }),
{
    let u = import::imported(x, name, data, mode, now).0;
    let (v, w) = (import_laws::vol_of(x), import_laws::vol_of(u));
    let i = fs::inode_of(v, x.sb.inodesize, other)->Ok_0;
    lemma_import_keeps(x, name, data, mode, now, other, 0);
    let m = mapping::mp_of(i);
    let n = fmt::ceil_div(i.size as int, v.bs as int);
    if i.format == FMT_EXTENT || i.format == FMT_TREE {
        assert forall|f: int| 0 <= f < n implies #[trigger] import::block_read(w, m, f)
            == import::block_read(v, m, f) by {
            if i.format == FMT_EXTENT {
                lemma_extent_block(x, m, f);
            } else {
                lemma_tree_same(x, name, data, mode, now, other, m.payload, f);
            }
            if let Ok(Mapping::Run { blk, len: _ }) = mapping::map_of(v, Map::empty(), m, f) {
                lemma_import_keeps(x, name, data, mode, now, other, blk);
            }
        }
        lemma_blocks_same(v, w, m, Seq::empty(), 0, n);
    }
}

/// A block that an extent maps is in use.
proof fn lemma_extent_block(x: Img, m: Mp, f: int)
    requires
        m.format == FMT_EXTENT,
        extents_in_use(x, inode::extents_of(m.payload)),
        0 <= f,
    ensures
        mapping::map_of(import_laws::vol_of(x), Map::empty(), m, f) matches Ok(Mapping::Run {
            blk,
            len: _,
        }) ==> in_use(x, blk),
{
    lemma_extents_map(x, inode::extents_of(m.payload), 0, f, u64::MAX as int);
}

proof fn lemma_extents_map(x: Img, es: Seq<Extent>, i: int, f: int, next: int)
    requires
        0 <= i,
        0 <= f,
        extents_in_use(x, es),
    ensures
        mapping::extents_map(es, i, f, next) matches Ok(Mapping::Run { blk, len: _ }) ==> in_use(
            x,
            blk,
        ),
    decreases es.len() - i,
{
    if i < es.len() {
        let e = es[i];
        if mapping::covers(e, f) {
            let k = f - e.file_block;
            let (ag, local) = (fmt::addr_ag(e.blk), fmt::addr_local(e.blk));
            let r = import::run_addr(fmt::addr_ag(es[i].blk), fmt::addr_local(es[i].blk), k);
            assert(r is Ok && in_use(x, r->Ok_0));
            fmt::law_address_halves(0, 0, e.blk);
            fmt::law_address_halves(ag, (local + k) as u32, 0);
            assert(r->Ok_0 == e.blk + k);
        } else {
            lemma_extents_map(
                x,
                es,
                i + 1,
                f,
                if f < es[i].file_block < next {
                    es[i].file_block as int
                } else {
                    next
                },
            );
        }
    }
}

/// An import leaves the mapping of a tree alone.
proof fn lemma_tree_same(
    x: Img,
    name: Seq<char>,
    data: Seq<u8>,
    mode: u16,
    now: Ts,
    other: u64,
    pl: Seq<u8>,
    f: int,
)
    requires
        import_laws::importable(x),
        vol::rd0(import_laws::vol_of(x), import_laws::root_block(x)) is Ok,
        fmt::ceil_div(data.len() as int, x.sb.blocksize as int) * x.sb.blocksize <= usize::MAX,
        import::imported(x, name, data, mode, now).1 is Ok,
        other != x.sb.root_ino,
        fmt::addr_ag(other) == import_laws::root_ag(x),
        fmt::addr_local(other) / (x.sb.blocksize / x.sb.inodesize as u32) == fmt::addr_local(
            x.sb.root_ino,
        ) / (x.sb.blocksize / x.sb.inodesize as u32),
        fs::inode_of(import_laws::vol_of(x), x.sb.inodesize, other) is Ok,
        tree_in_use(x, pl),
        0 <= f,
    ensures
        ({
            let w = import_laws::vol_of(import::imported(x, name, data, mode, now).0);
            mapping::tree_map(w, Map::empty(), pl, f) == mapping::tree_map(
                import_laws::vol_of(x),
                Map::empty(),
                pl,
                f,
            )
        }),
{
    let v = import_laws::vol_of(x);
    let w = import_laws::vol_of(import::imported(x, name, data, mode, now).0);
    let level = pl[0] as int;
    let c = treenode::cover(level);
    if level <= MAX_LEVEL {
        treenode::lemma_cover_monotonic(level, level);
        let j = f / c;
        tree_laws::lemma_place(f, c, j);
        if j < ROOT_FANOUT {
            let ch = treenode::root_at(pl, j);
            assert forall|a: u64| #[trigger]
                tree_growth::below(v, Map::empty(), ch, level, a) implies vol::rd0(w, a)
                == vol::rd0(v, a) by {
                assert(tree_growth::in_tree(v, Map::empty(), pl, a));
                lemma_import_keeps(x, name, data, mode, now, other, a);
            }
            lemma_child_same(v, w, ch, f % c, level);
        }
    }
}

/// An import adds one entry to the root directory, behind those that were
/// there.
#[verifier::rlimit(40)]
pub proof fn law_import_adds_one_entry(x: Img, name: Seq<char>, data: Seq<u8>, mode: u16, now: Ts)
    requires
        import_laws::importable(x),
        vol::rd0(import_laws::vol_of(x), import_laws::root_block(x)) is Ok,
        fs::inode_of(import_laws::vol_of(x), x.sb.inodesize, x.sb.root_ino) matches Ok(root)
            ==> root.format == FMT_EMBED ==> dirent::dir_clean(root.payload@),
        fmt::ceil_div(data.len() as int, x.sb.blocksize as int) * x.sb.blocksize <= usize::MAX,
        import::imported(x, name, data, mode, now).1 is Ok,
    ensures
        ({
            let (u, r) = import::imported(x, name, data, mode, now);
            let isz = x.sb.inodesize;
            let root = x.sb.root_ino;
            let before = import::entries_in(import_laws::vol_of(x), isz, root);
            &&& u.sb.root_ino == root
            &&& u.sb.inodesize == isz
            &&& before is Ok
            &&& import::entries_in(import_laws::vol_of(u), isz, root) == Ok::<
                Seq<Dirent>,
                FsError,
            >(before->Ok_0.push(Dirent { ino: r->Ok_0, ftype: DT_FILE, name }))
            &&& fs::inode_of(import_laws::vol_of(x), isz, root) matches Ok(r0)
            &&& fs::inode_of(import_laws::vol_of(u), isz, root) matches Ok(r1)
            &&& r1.mtime == now
            &&& r1.ctime == now
            &&& r1.mode == r0.mode
            &&& r1.nlink == r0.nlink
            &&& r1.uid == r0.uid
            &&& r1.gid == r0.gid
            &&& r1.flags == r0.flags
            &&& r1.gen == r0.gen
            &&& r1.size == r0.size
            &&& r1.nblocks == r0.nblocks
            &&& r1.atime == r0.atime
            &&& r1.btime == r0.btime
            &&& r1.xattr == r0.xattr
        }),
{
    let bs = x.sb.blocksize;
    let isz = x.sb.inodesize;
    let root = x.sb.root_ino;
    let v = import_laws::vol_of(x);
    import_laws::lemma_imported_shape(x, name, data, mode, now);
    let ino = import::imported(x, name, data, mode, now).1->Ok_0;
    let r0 = fs::inode_of(v, isz, root)->Ok_0;
    import_laws::lemma_slot_found(v, isz, root);
    let ag = import_laws::root_ag(x);
    let slots = bs / isz as u32;
    let a = fmt::addr_local(ino);
    let b = fmt::addr_local(root);
    fmt::law_address_halves(0, 0, root);
    import_laws::lemma_spot(bs, isz, ag, a);
    import_laws::lemma_spot(bs, isz, ag, b);
    let blk = import_laws::root_block(x);
    let y = import::data_stored(x, ino, data, mode, now).0;
    let i = import::data_stored(x, ino, data, mode, now).1->Ok_0;
    import_laws::lemma_data_stored(x, ino, data, mode, now, import_laws::vol_of(y));
    import_laws::lemma_inode_stored(y, ag, a, i);
    let z = import::inode_stored(y, ino, i).0;
    import_laws::lemma_slot_of_block(v, import_laws::vol_of(y), isz, ag, b);
    assert(fs::inode_of(import_laws::vol_of(z), isz, root) == Ok::<Inode, FsError>(r0));
    let e = Dirent { ino, ftype: DT_FILE, name };
    import_laws::lemma_entry_shape(z, e, now);
    let p = if r0.format == FMT_EMPTY {
        fmt::zeros(128)
    } else {
        r0.payload@
    };
    let q = dirent::dir_appended(p, e)->Ok_0;
    let r1 = Inode {
        format: if r0.format == FMT_EMPTY {
            FMT_EMBED
        } else {
            r0.format
        },
        payload: mkfs::payload(q),
        mtime: now,
        ctime: now,
        ..r0
    };
    import_laws::lemma_inode_stored(z, ag, b, r1);
    let w = import::inode_stored(z, root, r1).0;
    dirent::lemma_zero_payload_clean(fmt::zeros(128));
    assert(ino != 0) by {
        fmt::law_address_halves(0, 0, ino);
        if ino == 0 {
            assert(ag == 0 && a == 0);
            assert(0u32 / slots == 0) by (nonlinear_arith)
                requires
                    slots >= 1,
            ;
            fmt::law_address_halves(0, 0, blk);
        }
    }
    dirent::law_dir_append_then_parse(p, e);
    mkfs::lemma_payload(q);
    let u = Img { d: device::dev_sync(w.d), ..w };
    assert(import_laws::vol_of(u) == import_laws::vol_of(w));
    assert(r1.spec_is_dir() == r0.spec_is_dir());
}

} // verus!
