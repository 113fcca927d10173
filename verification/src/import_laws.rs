//! What files promise: a file that was imported, or the kernel of a new
//! volume, is found under its name and reads back byte for byte.

use crate::agmap::Group;
use crate::device::Dev;
use crate::dir::Dh;
use crate::dir_model::Buckets;
use crate::dirent::Dirent;
use crate::error::FsError;
use crate::fmt::{CELL_FREE, DT_FILE, FMT_EMBED, FMT_EMPTY, FMT_EXTENT, FMT_TREE};
use crate::header::AgHeader;
use crate::inode::{Extent, Inode, Ts};
use crate::mapping::Mp;
use crate::mkfs::{MkfsOpts, Plan};
use crate::resize::Img;
use crate::superblock::Superblock;
use crate::vol::Vol;
use vstd::prelude::*;

use crate::agmap;
use crate::bucket;
use crate::device;
use crate::dir;
use crate::dir_laws;
use crate::dir_model;
use crate::dirent;
use crate::fmt;
use crate::fs;
use crate::header;
use crate::import;
use crate::inode;
use crate::journal_laws;
use crate::mapping;
use crate::mkfs;
use crate::mkfs_laws;
use crate::new_tables;
use crate::resize;
use crate::tables;
use crate::utf16;
use crate::vol;

verus! {

// --- runs of blocks -----------------------------------------------------------

/// `data` with zeros up to the end of its last block.
pub open spec fn padded(data: Seq<u8>, bs: int) -> Seq<u8> {
    Seq::new(
        (fmt::ceil_div(data.len() as int, bs) * bs) as nat,
        |i: int| if i < data.len() { data[i] } else { 0u8 },
    )
}

/// A file whose blocks hold the chunks of `data` reads as `data`, padded.
proof fn lemma_blocks_read(v: Vol, m: Mp, data: Seq<u8>, i: int)
    requires
        v.bs > 0,
        0 <= i <= fmt::ceil_div(data.len() as int, v.bs as int),
        forall|k: int|
            0 <= k < fmt::ceil_div(data.len() as int, v.bs as int) ==> #[trigger] import::block_read(
                v,
                m,
                k,
            ) == Ok::<Seq<u8>, FsError>(import::chunk(data, v.bs as int, k)),
    ensures
        import::blocks_read(
            v,
            m,
            padded(data, v.bs as int).take(i * v.bs),
            i,
            fmt::ceil_div(data.len() as int, v.bs as int),
        ) == Ok::<Seq<u8>, FsError>(padded(data, v.bs as int)),
    decreases fmt::ceil_div(data.len() as int, v.bs as int) - i,
{
    let bs = v.bs as int;
    let n = fmt::ceil_div(data.len() as int, bs);
    let all = padded(data, bs);
    fmt::lemma_ceil_div(data.len() as int, bs);
    assert(0 <= i * bs <= n * bs) by (nonlinear_arith)
        requires
            0 <= i <= n,
            bs > 0,
    ;
    if i < n {
        let c = import::chunk(data, bs, i);
        assert(import::block_read(v, m, i) == Ok::<Seq<u8>, FsError>(c));
        assert((i + 1) * bs == i * bs + bs && i * bs + bs <= n * bs) by (nonlinear_arith)
            requires
                i + 1 <= n,
                bs > 0,
        ;
        assert(all.take(i * bs) + c =~= all.take((i + 1) * bs));
        lemma_blocks_read(v, m, data, i + 1);
    } else {
        assert(all.take(n * bs) =~= all);
    }
}

/// A file of one extent whose blocks hold `data`, padded, reads as `data`.
proof fn lemma_file_data(v: Vol, i: Inode, e: Extent, data: Seq<u8>)
    requires
        v.bs > 0,
        data.len() > 0,
        i.format == FMT_EXTENT,
        i.size == data.len(),
        i.payload@ == inode::extents_image(seq![e]),
        e.file_block == 0,
        e.blocks == fmt::ceil_div(data.len() as int, v.bs as int),
        fmt::ceil_div(data.len() as int, v.bs as int) * v.bs <= usize::MAX,
        forall|k: int|
            0 <= k < e.blocks ==> (#[trigger] import::run_addr(
                fmt::addr_ag(e.blk),
                fmt::addr_local(e.blk),
                k,
            )) is Ok && vol::rd0(
                v,
                import::run_addr(fmt::addr_ag(e.blk), fmt::addr_local(e.blk), k)->Ok_0,
            ) == Ok::<Seq<u8>, FsError>(import::chunk(data, v.bs as int, k)),
    ensures
        import::file_data(v, i) == Ok::<Seq<u8>, FsError>(data),
{
    let bs = v.bs as int;
    let n = e.blocks as int;
    fmt::lemma_ceil_div(data.len() as int, bs);
    assert(n > 0) by (nonlinear_arith)
        requires
            n * bs >= data.len(),
            data.len() > 0,
            bs > 0,
    ;
    inode::law_extents_round_trip(seq![e]);
    let all = padded(data, bs);
    let mp = mapping::mp_of(i);
    let (ag, local) = (fmt::addr_ag(e.blk), fmt::addr_local(e.blk));
    assert forall|k: int| 0 <= k < n implies #[trigger] import::block_read(v, mp, k) == Ok::<
        Seq<u8>,
        FsError,
    >(import::chunk(data, bs, k)) by {
        let r = import::run_addr(ag, local, k);
        assert(r is Ok);
        fmt::law_address_halves(0, 0, e.blk);
        fmt::law_address_halves(ag, (local + k) as u32, 0);
        assert(r->Ok_0 == e.blk + k);
        assert(inode::extents_of(mp.payload)[0] == e);
        assert(mapping::covers(e, k));
        reveal_with_fuel(mapping::extents_map, 2);
    }
    assert(0int * bs == 0) by (nonlinear_arith);
    assert(all.take(0) =~= Seq::<u8>::empty());
    lemma_blocks_read(v, mp, data, 0);
    assert(all.take(data.len() as int) =~= data);
}

// --- hashed directories -------------------------------------------------------

/// Looking a name up goes by the first entry of that name.
proof fn lemma_first_named(es: Seq<Dirent>, name: Seq<char>) -> (k: int)
    ensures
        match import::named(es, name) {
            Some(ino) => 0 <= k < es.len() && es[k].name == name && es[k].ino == ino,
            None => forall|j: int| 0 <= j < es.len() ==> (#[trigger] es[j]).name != name,
        },
    decreases es.len(),
{
    if es.len() == 0 || es[0].name == name {
        0
    } else {
        let k = lemma_first_named(es.skip(1), name);
        assert forall|j: int|
            0 <= j < es.len() && import::named(es, name) is None implies (#[trigger] es[j]).name
            != name by {
            if j > 0 {
                assert(es.skip(1)[j - 1] == es[j]);
            }
        }
        k + 1
    }
}

/// In a hashed directory in order a name is looked up in the listing with the result
/// that the search by its hash has.
pub proof fn law_lookup_agrees_with_search(
    v: Vol,
    uuid: Seq<u8>,
    isz: u16,
    ino: u64,
    hblk: u64,
    h: Dh,
    bs: Buckets,
    name: Seq<char>,
)
    requires
        v.bs >= 2048,
        fs::inode_of(v, isz, ino) matches Ok(i) && i.spec_is_dir() && (i.format == FMT_EXTENT
            || i.format == FMT_TREE) && dir_laws::in_order(
            v,
            Map::empty(),
            mapping::mp_of(i),
            hblk,
            h,
            bs,
        ),
        dir_laws::hashes_right(uuid, h, bs),
    ensures
        ({
            let m = mapping::mp_of(fs::inode_of(v, isz, ino)->Ok_0);
            dir::found(v, Map::empty(), uuid, true, m, name) matches Ok(o) && import::looked_up(
                v,
                isz,
                ino,
                name,
            ) == Ok::<Option<u64>, FsError>(
                match o {
                    Some(e) => Some(e.ino),
                    None => None,
                },
            )
        }),
{
    let t = Map::<u64, Seq<u8>>::empty();
    let m = mapping::mp_of(fs::inode_of(v, isz, ino)->Ok_0);
    dir_laws::lemma_found(v, t, uuid, m, hblk, h, bs, name);
    let hash = bucket::name_hash(uuid, name);
    dir_model::lemma_named(bs(dir::bucket_for(h, hash)).es, hash, name, 0);
    let o = dir::found(v, t, uuid, true, m, name)->Ok_0;
    dir_laws::law_listed_is_found(v, t, uuid, m, hblk, h, bs, Dirent { ino: 0, ftype: 0, name });
    let es = dir::listed(v, t, true, m)->Ok_0;
    let k = lemma_first_named(es, name);
    if import::named(es, name) is Some {
        assert(es.contains(es[k]));
        dir_laws::law_listed_is_found(v, t, uuid, m, hblk, h, bs, es[k]);
    } else if let Some(e) = o {
        assert(e.name == name);
        dir_laws::law_listed_is_found(v, t, uuid, m, hblk, h, bs, e);
        let j = choose|j: int| 0 <= j < es.len() && es[j] == e;
        assert(es[j].name == name);
    }
}

// --- the kernel of a new volume -----------------------------------------------

/// The kernel of a finished volume is found as `kernel.bin` in the root
/// directory, and reads back byte for byte.
pub proof fn law_kernel_file_reads_back(d: Dev, o: MkfsOpts, uuid: [u8; 16], now: Ts)
    requires
        d.bytes.len() <= u64::MAX,
        mkfs::opts_flaw(o) is None,
        mkfs::made(d, o, uuid, now).1 is Ok,
        0 < mkfs::kernel_len(o) <= u64::MAX,
        fmt::ceil_div(mkfs::kernel_len(o), o.blocksize as int) * o.blocksize <= usize::MAX,
    ensures
        ({
            let v = Vol {
                bytes: mkfs::made(d, o, uuid, now).0.bytes,
                groups: mkfs::first_map(mkfs_laws::lens_of(d, o), o.blocksize).entries,
                bs: o.blocksize,
            };
            let root = mkfs_laws::super_of(d, o, uuid).root_ino;
            &&& import::looked_up(v, o.inodesize, root, "kernel.bin"@) == Ok::<
                Option<u64>,
                FsError,
            >(Some((root + 1) as u64))
            &&& import::file_of(v, o.inodesize, (root + 1) as u64) == Ok::<Seq<u8>, FsError>(
                mkfs::kernel_of(o)->0,
            )
        }),
{
    let bs = o.blocksize;
    let isz = o.inodesize;
    let e = mkfs::made(d, o, uuid, now).0;
    let lens = mkfs_laws::lens_of(d, o);
    let p = mkfs_laws::layout_of(d, o)->Ok_0;
    let gs = mkfs::first_map(lens, bs).entries;
    let v = Vol { bytes: e.bytes, groups: gs, bs };
    let root = mkfs_laws::super_of(d, o, uuid).root_ino;
    let ker = mkfs::kernel_of(o)->0;
    mkfs_laws::law_made_root_reads_back(d, o, uuid, now);
    mkfs_laws::lemma_kernel_inode(d, o, uuid, now);
    let r = mkfs::root_inode(now, root, true);
    // the directory entry
    let ent = mkfs::kernel_entry(root);
    let z = fmt::zeros(128);
    dirent::lemma_zero_payload_clean(z);
    assert(utf16::encode_utf16(ent.name).len() == 10) by {
        reveal_strlit("kernel.bin");
        reveal_with_fuel(utf16::encode_utf16, 12);
    }
    assert(dirent::entries_len(Seq::<Dirent>::empty()) == 0);
    dirent::law_dir_append_then_parse(z, ent);
    let q = fmt::splice(z, 0, dirent::entry_bytes(ent));
    assert(dirent::dir_appended(z, ent) == Ok::<Seq<u8>, fmt::FmtError>(q));
    mkfs::lemma_payload(q);
    let es = dirent::dir_entries_of(q);
    assert(es =~= seq![ent]);
    assert(import::named(es, "kernel.bin"@) == Some(ent.ino));
    // the data
    let ki = mkfs::kernel_inode(now, p, ker.len() as u64);
    let ext = Extent { file_block: 0, blk: fmt::addr_of(0, p.kernel_at), blocks: p.kernel };
    let image = inode::extents_image(seq![ext]);
    fmt::law_address_halves(0, p.kernel_at, 0);
    fmt::lemma_ceil_div(ker.len() as int, bs as int);
    assert(p.kernel > 0) by (nonlinear_arith)
        requires
            p.kernel * bs >= ker.len(),
            ker.len() > 0,
            bs > 0,
    ;
    inode::law_extents_round_trip(seq![ext]);
    mkfs::lemma_payload(image);
    assert forall|k: int| 0 <= k < p.kernel implies (#[trigger] import::run_addr(
        0,
        p.kernel_at,
        k,
    )) is Ok && vol::rd0(v, import::run_addr(0, p.kernel_at, k)->Ok_0) == Ok::<Seq<u8>, FsError>(
        import::chunk(ker, bs as int, k),
    ) by {
        mkfs_laws::lemma_kernel_block(d, o, uuid, now, k);
    }
    lemma_file_data(v, ki, ext, ker);
}

// --- inode slots --------------------------------------------------------------

/// The blocks of a volume.
pub open spec fn vol_of(x: Img) -> Vol {
    Vol { bytes: x.d.bytes, groups: x.m.entries, bs: x.sb.blocksize }
}

/// A block holds a whole number of inode slots, each large enough.
pub open spec fn slots_fit(bs: u32, isz: u16) -> bool {
    256 <= isz <= bs && bs % isz as u32 == 0
}

/// A slot lies in one block.
pub proof fn lemma_spot(bs: u32, isz: u16, ag: u32, slot: u32)
    requires
        slots_fit(bs, isz),
    ensures
        ({
            let slots = bs / isz as u32;
            &&& slots >= 1
            &&& fs::inode_spot(bs, isz, fmt::addr_of(ag, slot)) == (
                fmt::addr_of(ag, slot / slots),
                (slot % slots) * isz,
            )
            &&& 0 <= (slot % slots) * isz
            &&& (slot % slots) * isz + isz <= bs
        }),
{
    let slots = (bs / isz as u32) as int;
    let b = bs as int;
    let z = isz as int;
    assert(slots * z == b && slots >= 1) by (nonlinear_arith)
        requires
            b % z == 0,
            slots == b / z,
            0 < z <= b,
    ;
    fmt::law_address_halves(ag, slot, 0);
    let q = slot as int / slots;
    let r = slot as int % slots;
    let byte = slot * z;
    assert(slot == slots * q + r && 0 <= r < slots && 0 <= q <= slot) by (nonlinear_arith)
        requires
            q == slot as int / slots,
            r == slot as int % slots,
            slots >= 1,
            slot >= 0,
    ;
    assert(byte == q * b + r * z && 0 <= r * z && r * z + z <= b) by (nonlinear_arith)
        requires
            byte == slot * z,
            slot == slots * q + r,
            slots * z == b,
            0 <= r < slots,
            z > 0,
    ;
    vstd::arithmetic::div_mod::lemma_fundamental_div_mod_converse(byte, b, q, r * z);
}

/// Two different slots of one block share no byte.
proof fn lemma_slots_apart(bs: u32, isz: u16, ag: u32, a: u32, b: u32)
    requires
        slots_fit(bs, isz),
        a != b,
        a / (bs / isz as u32) == b / (bs / isz as u32),
    ensures
        journal_laws::apart(
            fs::inode_spot(bs, isz, fmt::addr_of(ag, a)).1,
            256,
            fs::inode_spot(bs, isz, fmt::addr_of(ag, b)).1,
            256,
        ),
{
    lemma_spot(bs, isz, ag, a);
    lemma_spot(bs, isz, ag, b);
    let slots = (bs / isz as u32) as int;
    let x = a as int % slots;
    let y = b as int % slots;
    assert(x != y) by (nonlinear_arith)
        requires
            a != b,
            a as int / slots == b as int / slots,
            x == a as int % slots,
            y == b as int % slots,
            slots >= 1,
    ;
    let z = isz as int;
    if x < y {
        assert(x * z + z <= y * z) by (nonlinear_arith)
            requires
                x + 1 <= y,
                z > 0,
        ;
    } else {
        assert(y * z + z <= x * z) by (nonlinear_arith)
            requires
                y + 1 <= x,
                z > 0,
        ;
    }
}

/// Storing an inode changes its slot, and nothing outside its block.
pub proof fn lemma_inode_stored(x: Img, ag: u32, slot: u32, i: Inode)
    requires
        slots_fit(x.sb.blocksize, x.sb.inodesize),
        journal_laws::blocks_apart(x.m.entries, x.sb.blocksize),
        x.d.bytes.len() <= u64::MAX,
        import::inode_stored(x, fmt::addr_of(ag, slot), i).1 is Ok,
    ensures
        ({
            let bs = x.sb.blocksize;
            let isz = x.sb.inodesize;
            let y = import::inode_stored(x, fmt::addr_of(ag, slot), i).0;
            let blk = fmt::addr_of(ag, slot / (bs / isz as u32));
            &&& y.sb == x.sb
            &&& y.m == x.m
            &&& y.d.bytes.len() == x.d.bytes.len()
            &&& y.d.writable == x.d.writable
            &&& fs::inode_of(vol_of(y), isz, fmt::addr_of(ag, slot)) == Ok::<Inode, FsError>(i)
            &&& forall|b: u64|
                b != blk && vol::rd0(vol_of(x), b) is Ok ==> #[trigger] vol::rd0(vol_of(y), b)
                    == vol::rd0(vol_of(x), b)
            &&& forall|other: u32|
                other != slot && other / (bs / isz as u32) == slot / (bs / isz as u32)
                    && fs::slot_bytes(vol_of(x), isz, fmt::addr_of(ag, other)) is Ok
                    ==> #[trigger] fs::slot_bytes(vol_of(y), isz, fmt::addr_of(ag, other))
                    == fs::slot_bytes(vol_of(x), isz, fmt::addr_of(ag, other))
        }),
{
    let bs = x.sb.blocksize;
    let isz = x.sb.inodesize;
    let gs = x.m.entries;
    let ino = fmt::addr_of(ag, slot);
    let y = import::inode_stored(x, ino, i).0;
    lemma_spot(bs, isz, ag, slot);
    let (blk, o) = fs::inode_spot(bs, isz, ino);
    let p = vol::place(gs, bs, blk)->Ok_0 as int;
    inode::law_inode_round_trip(i, Seq::empty());
    let b = inode::inode_bytes(i);
    assert(b + Seq::empty() =~= b);
    assert(y.d.bytes.subrange(p + o, p + o + 256) =~= b);
    assert forall|c: u64|
        c != blk && vol::rd0(vol_of(x), c) is Ok implies #[trigger] vol::rd0(vol_of(y), c)
        == vol::rd0(vol_of(x), c) by {
        let q = vol::place(gs, bs, c)->Ok_0 as int;
        assert(vol::place(gs, bs, blk) is Ok);
        assert(journal_laws::apart(p, bs as int, q, bs as int));
        assert(y.d.bytes.subrange(q, q + bs) =~= x.d.bytes.subrange(q, q + bs));
    }
    assert forall|other: u32|
        other != slot && other / (bs / isz as u32) == slot / (bs / isz as u32) && fs::slot_bytes(
            vol_of(x),
            isz,
            fmt::addr_of(ag, other),
        ) is Ok implies #[trigger] fs::slot_bytes(vol_of(y), isz, fmt::addr_of(ag, other))
        == fs::slot_bytes(vol_of(x), isz, fmt::addr_of(ag, other)) by {
        lemma_spot(bs, isz, ag, other);
        lemma_slots_apart(bs, isz, ag, slot, other);
        let (blk2, o2) = fs::inode_spot(bs, isz, fmt::addr_of(ag, other));
        assert(blk2 == blk);
        assert(y.d.bytes.subrange(p + o2, p + o2 + 256) =~= x.d.bytes.subrange(
            p + o2,
            p + o2 + 256,
        ));
    }
}

// --- storing the data ---------------------------------------------------------

/// The group of the root inode, its header, and the block that holds the root
/// inode.
pub open spec fn root_ag(x: Img) -> u32 {
    fmt::addr_ag(x.sb.root_ino)
}

pub open spec fn root_block(x: Img) -> u64 {
    fs::inode_spot(x.sb.blocksize, x.sb.inodesize, x.sb.root_ino).0
}

/// The block of the root inode is in use as nothing else: it lies in no free
/// cell, is not part of the allocator's root table or the group's header, and
/// does not hold the superblock.
pub open spec fn root_block_taken(x: Img) -> bool {
    &&& root_block(x) != 0
    &&& journal_laws::block_off_superblock(x.m.entries, x.sb.blocksize, root_block(x))
    &&& fs::header_of(vol_of(x), Map::empty(), root_ag(x)) matches Ok(h) ==> {
        &&& root_block(x) != fmt::addr_of(h.ag_num, fs::header_local(h.ag_num))
        &&& forall|i: int|
            0 <= i < header::table_blocks(h.length, x.sb.blocksize) ==> #[trigger] import::run_addr(
                h.ag_num,
                h.alloc_root,
                i,
            ) != Ok::<u64, FsError>(root_block(x))
        &&& import::root_table_of(vol_of(x), h) matches Ok(t) ==> fmt::cell_at(
            t,
            fmt::addr_local(root_block(x)) as int / 256,
        ) != CELL_FREE
    }
}

/// A volume that files can be imported into.
pub open spec fn importable(x: Img) -> bool {
    &&& x.sb.blocksize >= 512
    &&& x.d.bytes.len() <= u64::MAX
    &&& slots_fit(x.sb.blocksize, x.sb.inodesize)
    &&& journal_laws::blocks_apart(x.m.entries, x.sb.blocksize)
    &&& root_block_taken(x)
}

/// Writes to blocks other than `blk`, or to the superblock, keep the block.
pub proof fn lemma_run_writes_keep(
    d: Dev,
    gs: Seq<Group>,
    bs: u32,
    ag: u32,
    local: u32,
    data: Seq<u8>,
    blk: u64,
)
    requires
        bs > 0,
        journal_laws::blocks_apart(gs, bs),
        vol::rd0(Vol { bytes: d.bytes, groups: gs, bs }, blk) is Ok,
        forall|i: int|
            0 <= i < fmt::ceil_div(data.len() as int, bs as int) ==> #[trigger] import::run_addr(
                ag,
                local,
                i,
            ) != Ok::<u64, FsError>(blk),
    ensures
        ({
            let e = device::dev_writes(d, import::run_writes(gs, bs, ag, local, data)).0;
            &&& e.bytes.len() == d.bytes.len()
            &&& e.writable == d.writable
            &&& vol::rd0(Vol { bytes: e.bytes, groups: gs, bs }, blk) == vol::rd0(
                Vol { bytes: d.bytes, groups: gs, bs },
                blk,
            )
        }),
{
    let items = import::run_writes(gs, bs, ag, local, data);
    let p = vol::place(gs, bs, blk)->Ok_0 as int;
    assert forall|i: int| 0 <= i < items.len() implies ((#[trigger] items[i]).0 matches Ok(q)
        ==> journal_laws::apart(p, bs as int, q as int, items[i].1.len() as int)) by {
        assert(items[i].0 == import::run_place(gs, bs, ag, local, i));
        if let Ok(a) = import::run_addr(ag, local, i) {
            assert(a != blk);
            if vol::place(gs, bs, a) is Ok {
                assert(vol::place(gs, bs, blk) is Ok);
            }
        }
    }
    journal_laws::lemma_writes_frame(d, items, p, bs as int);
}

/// Writing the superblock keeps every block off it.
pub proof fn lemma_super_keeps(d: Dev, sb: Superblock, gs: Seq<Group>, blk: u64)
    requires
        vol::rd0(Vol { bytes: d.bytes, groups: gs, bs: sb.blocksize }, blk) is Ok,
        journal_laws::block_off_superblock(gs, sb.blocksize, blk),
    ensures
        ({
            let e = fs::sb_write(d, sb, gs).0;
            &&& e.bytes.len() == d.bytes.len()
            &&& e.writable == d.writable
            &&& vol::rd0(Vol { bytes: e.bytes, groups: gs, bs: sb.blocksize }, blk) == vol::rd0(
                Vol { bytes: d.bytes, groups: gs, bs: sb.blocksize },
                blk,
            )
        }),
{
    let p = vol::place(gs, sb.blocksize, blk)->Ok_0 as int;
    journal_laws::lemma_sb_write_frame(d, sb, gs, p, sb.blocksize as int);
    if sb.gen < u64::MAX {
        let sb1 = Superblock { gen: (sb.gen + 1) as u64, ..sb };
        journal_laws::lemma_writes_len(d, fs::sb_writes(sb1, gs));
    }
}

/// Allocating cells keeps the block of the root inode, and does not give it
/// away.
proof fn lemma_cells_allocated(x: Img, count: int)
    requires
        importable(x),
        count > 0,
        vol::rd0(vol_of(x), root_block(x)) is Ok,
        import::cells_allocated(x, root_ag(x), count).1 is Ok,
    ensures
        ({
            let (y, r) = import::cells_allocated(x, root_ag(x), count);
            let blk = r->Ok_0;
            &&& y.m == x.m
            &&& y.sb.blocksize == x.sb.blocksize
            &&& y.sb.inodesize == x.sb.inodesize
            &&& y.sb.root_ino == x.sb.root_ino
            &&& y.d.bytes.len() == x.d.bytes.len()
            &&& y.d.writable == x.d.writable
            &&& vol::rd0(vol_of(y), root_block(x)) == vol::rd0(vol_of(x), root_block(x))
            &&& fmt::addr_ag(blk) == root_ag(x)
            &&& fmt::addr_local(blk) + count * 256 <= 0x1_0000_0000
            &&& forall|k: int|
                0 <= k < count * 256 ==> #[trigger] import::run_addr(
                    fmt::addr_ag(blk),
                    fmt::addr_local(blk),
                    k,
                ) != Ok::<u64, FsError>(root_block(x))
        }),
{
    reveal(import::cells_allocated);
    let bs = x.sb.blocksize;
    let gs = x.m.entries;
    let ag = root_ag(x);
    let v = vol_of(x);
    let h = fs::header_of(v, Map::empty(), ag)->Ok_0;
    let t = import::root_table_of(v, h)->Ok_0;
    let cells = header::cell_count(h.length);
    let s = import::first_free_run(t, cells, count)->0;
    assert(import::is_first_run(t, cells, count, s));
    fmt::lemma_ceil_div(h.length as int, 256);
    let n = count * 256;
    fmt::law_address_halves(ag, (s * 256) as u32, 0);
    let t1 = resize::cells_filled(t, s, s + count, fmt::CELL_FULL);
    let (d1, r1) = device::dev_writes(x.d, import::run_writes(gs, bs, h.ag_num, h.alloc_root, t1));
    lemma_table_len(v, h);
    lemma_filled_len(t, s, s + count);
    lemma_run_writes_keep(x.d, gs, bs, h.ag_num, h.alloc_root, t1, root_block(x));
    let h1 = AgHeader {
        free_blocks: (h.free_blocks - n) as u32,
        full_blocks: (h.full_blocks + n) as u32,
        gen: (h.gen + 1) as u64,
        ..h
    };
    let items = seq![
        (
            vol::place(gs, bs, fmt::addr_of(h.ag_num, fs::header_local(h.ag_num))),
            fs::header_block(h1, bs),
        ),
    ];
    let (d2, r2) = device::dev_writes(d1, items);
    let p = vol::place(gs, bs, root_block(x))->Ok_0 as int;
    header::law_header_round_trip(h1, Seq::empty());
    assert(fs::header_block(h1, bs).len() == bs);
    assert forall|i: int| 0 <= i < items.len() implies ((#[trigger] items[i]).0 matches Ok(q)
        ==> journal_laws::apart(p, bs as int, q as int, items[i].1.len() as int)) by {
        assert(vol::place(gs, bs, root_block(x)) is Ok);
    }
    journal_laws::lemma_writes_frame(d1, items, p, bs as int);
    let sb2 = Superblock {
        free_blocks: (x.sb.free_blocks - n) as u64,
        full_blocks: (x.sb.full_blocks + n) as u64,
        ..x.sb
    };
    lemma_super_keeps(d2, sb2, gs, root_block(x));
    let blk = fmt::addr_of(ag, (s * 256) as u32);
    let local = fmt::addr_local(root_block(x)) as int;
    assert forall|k: int| 0 <= k < count * 256 implies #[trigger] import::run_addr(
        ag,
        (s * 256) as u32,
        k,
    ) != Ok::<u64, FsError>(root_block(x)) by {
        if let Ok(a) = import::run_addr(ag, (s * 256) as u32, k) {
            fmt::law_address_halves(ag, (s * 256 + k) as u32, 0);
            if a == root_block(x) {
                assert(local == s * 256 + k);
                let c = local / 256;
                assert(s <= c < s + count);
                assert(fmt::cell_at(t, c) == CELL_FREE);
            }
        }
    }
}

/// A root table that can be read is a whole number of blocks long.
pub proof fn lemma_table_len(v: Vol, h: AgHeader)
    requires
        v.bs >= 512,
        import::root_table_of(v, h) is Ok,
    ensures
        import::root_table_of(v, h)->Ok_0.len() == header::table_blocks(h.length, v.bs) * v.bs,
        fmt::ceil_div(import::root_table_of(v, h)->Ok_0.len() as int, v.bs as int)
            == header::table_blocks(h.length, v.bs),
        (header::cell_count(h.length) + 3) / 4 <= import::root_table_of(v, h)->Ok_0.len(),
{
    let n = header::table_blocks(h.length, v.bs);
    let bs = v.bs as int;
    let cells = header::cell_count(h.length);
    fmt::lemma_ceil_div(h.length as int, 256);
    fmt::lemma_ceil_div(cells, 4);
    fmt::lemma_ceil_div(header::state_bytes(cells) + 6 * cells, bs);
    lemma_run_len(v, h.ag_num, h.alloc_root, Seq::empty(), 0, n);
    fmt::lemma_ceil_div(n * bs, bs);
    vstd::arithmetic::div_mod::lemma_div_multiples_vanish(n, bs);
    vstd::arithmetic::div_mod::lemma_mod_multiples_basic(n, bs);
    assert(n * bs == bs * n) by (nonlinear_arith);
}

proof fn lemma_run_len(v: Vol, ag: u32, local: u32, done: Seq<u8>, i: int, n: int)
    requires
        i <= n,
        import::run_read(v, ag, local, done, i, n) is Ok,
    ensures
        import::run_read(v, ag, local, done, i, n)->Ok_0.len() == done.len() + (n - i) * v.bs,
    decreases n - i,
{
    if i < n {
        let a = import::run_addr(ag, local, i)->Ok_0;
        let b = vol::rd0(v, a)->Ok_0;
        lemma_run_len(v, ag, local, done + b, i + 1, n);
        assert((n - i) * v.bs == v.bs + (n - i - 1) * v.bs) by (nonlinear_arith);
    } else {
        assert((n - i) * v.bs == 0) by (nonlinear_arith)
            requires
                n == i,
        ;
    }
}

pub proof fn lemma_filled_len(t: Seq<u8>, lo: int, hi: int)
    requires
        0 <= lo <= hi,
        (hi + 3) / 4 <= t.len(),
    ensures
        resize::cells_filled(t, lo, hi, fmt::CELL_FULL).len() == t.len(),
    decreases hi - lo,
{
    if lo < hi {
        lemma_filled_len(t, lo, hi - 1);
    }
}

/// `w` agrees with `v` outside the block of the root inode.
pub open spec fn agrees(x: Img, v: Vol, w: Vol) -> bool {
    &&& w.groups == v.groups
    &&& w.bs == v.bs
    &&& forall|b: u64|
        b != root_block(x) && vol::rd0(v, b) is Ok ==> #[trigger] vol::rd0(w, b) == vol::rd0(v, b)
}

/// Storing the data of a file keeps the block of the root inode. With the
/// inode that comes out, the file reads as the data on every volume that
/// agrees with this one outside that block.
pub proof fn lemma_data_stored(x: Img, ino: u64, data: Seq<u8>, mode: u16, now: Ts, w: Vol)
    requires
        importable(x),
        fmt::addr_ag(ino) == root_ag(x),
        vol::rd0(vol_of(x), root_block(x)) is Ok,
        import::data_stored(x, ino, data, mode, now).1 is Ok,
        fmt::ceil_div(data.len() as int, x.sb.blocksize as int) * x.sb.blocksize <= usize::MAX,
        agrees(x, vol_of(import::data_stored(x, ino, data, mode, now).0), w),
    ensures
        ({
            let (y, r) = import::data_stored(x, ino, data, mode, now);
            &&& y.m == x.m
            &&& y.sb.blocksize == x.sb.blocksize
            &&& y.sb.inodesize == x.sb.inodesize
            &&& y.sb.root_ino == x.sb.root_ino
            &&& y.d.bytes.len() == x.d.bytes.len()
            &&& y.d.writable == x.d.writable
            &&& vol::rd0(vol_of(y), root_block(x)) == vol::rd0(vol_of(x), root_block(x))
            &&& import::file_data(w, r->Ok_0) == Ok::<Seq<u8>, FsError>(data)
        }),
{
    let len = data.len() as int;
    if len > 128 {
        lemma_data_in_cells(x, ino, data, mode, now, w);
    } else {
        reveal(import::data_stored);
        if len == 0 {
            assert(data =~= Seq::<u8>::empty());
        } else {
            let p = fmt::splice(fmt::zeros(128), 0, data);
            mkfs::lemma_payload(p);
            assert(p.take(len) =~= data);
        }
    }
}

/// What storing data in cells consists of.
pub proof fn lemma_data_shape(x: Img, ino: u64, data: Seq<u8>, mode: u16, now: Ts)
    requires
        import::data_stored(x, ino, data, mode, now).1 is Ok,
        data.len() > 128,
    ensures
        ({
            let bs = x.sb.blocksize;
            let len = data.len() as int;
            let (y, r) = import::data_stored(x, ino, data, mode, now);
            let cells = fmt::ceil_div(len, 256 * bs);
            let (x1, r1) = import::cells_allocated(x, fmt::addr_ag(ino), cells);
            let blk = r1->Ok_0;
            let (d1, r2) = device::dev_writes(
                x1.d,
                import::run_writes(
                    x1.m.entries,
                    bs,
                    fmt::addr_ag(blk),
                    fmt::addr_local(blk),
                    data,
                ),
            );
            &&& r1 is Ok
            &&& r2 is Ok
            &&& y == Img { d: d1, ..x1 }
            &&& r->Ok_0 == import::file_inode(
                FMT_EXTENT,
                mode,
                len,
                cells * 256,
                now,
                inode::extents_image(
                    seq![
                        Extent {
                            file_block: 0,
                            blk,
                            blocks: fmt::ceil_div(len, bs as int) as u32,
                        },
                    ],
                ),
            )
        }),
{
    reveal(import::data_stored);
}

#[verifier::rlimit(30)]
proof fn lemma_data_in_cells(x: Img, ino: u64, data: Seq<u8>, mode: u16, now: Ts, w: Vol)
    requires
        importable(x),
        fmt::addr_ag(ino) == root_ag(x),
        vol::rd0(vol_of(x), root_block(x)) is Ok,
        import::data_stored(x, ino, data, mode, now).1 is Ok,
        fmt::ceil_div(data.len() as int, x.sb.blocksize as int) * x.sb.blocksize <= usize::MAX,
        agrees(x, vol_of(import::data_stored(x, ino, data, mode, now).0), w),
        data.len() > 128,
    ensures
        ({
            let (y, r) = import::data_stored(x, ino, data, mode, now);
            &&& y.m == x.m
            &&& y.sb.blocksize == x.sb.blocksize
            &&& y.sb.inodesize == x.sb.inodesize
            &&& y.sb.root_ino == x.sb.root_ino
            &&& y.d.bytes.len() == x.d.bytes.len()
            &&& y.d.writable == x.d.writable
            &&& vol::rd0(vol_of(y), root_block(x)) == vol::rd0(vol_of(x), root_block(x))
            &&& import::file_data(w, r->Ok_0) == Ok::<Seq<u8>, FsError>(data)
        }),
{
    lemma_data_shape(x, ino, data, mode, now);
    let bs = x.sb.blocksize;
    let len = data.len() as int;
    let y = import::data_stored(x, ino, data, mode, now).0;
    let i = import::data_stored(x, ino, data, mode, now).1->Ok_0;
    let cells = fmt::ceil_div(len, 256 * bs);
    let n = fmt::ceil_div(len, bs as int);
    import::lemma_cells_fit(x, root_ag(x), cells, len);
    assert(cells > 0) by (nonlinear_arith)
        requires
            0 < n <= cells * 256,
    ;
    lemma_cells_allocated(x, cells);
    let x1 = import::cells_allocated(x, root_ag(x), cells).0;
    let blk = import::cells_allocated(x, root_ag(x), cells).1->Ok_0;
    lemma_run_writes_keep(
        x1.d,
        x.m.entries,
        bs,
        fmt::addr_ag(blk),
        fmt::addr_local(blk),
        data,
        root_block(x),
    );
    fmt::lemma_ceil_div(len, bs as int);
    assert(i.size == len);
    assert(vol_of(y) == Vol { bytes: y.d.bytes, groups: x.m.entries, bs });
    lemma_stored_run(x, x1.d, blk, data, i, w);
}

/// A file whose data was stored in a run apart from the root inode's block
/// reads back.
proof fn lemma_stored_run(x: Img, d: Dev, blk: u64, data: Seq<u8>, i: Inode, w: Vol)
    requires
        x.sb.blocksize > 0,
        journal_laws::blocks_apart(x.m.entries, x.sb.blocksize),
        data.len() > 0,
        ({
            let bs = x.sb.blocksize;
            let gs = x.m.entries;
            let ag = fmt::addr_ag(blk);
            let local = fmt::addr_local(blk);
            let n = fmt::ceil_div(data.len() as int, bs as int);
            let (d1, r1) = device::dev_writes(d, import::run_writes(gs, bs, ag, local, data));
            &&& r1 is Ok
            &&& agrees(x, Vol { bytes: d1.bytes, groups: gs, bs }, w)
            &&& 0 < n <= u32::MAX
            &&& n * bs <= usize::MAX
            &&& local + n <= 0x1_0000_0000
            &&& forall|k: int|
                0 <= k < n ==> #[trigger] import::run_addr(ag, local, k) != Ok::<u64, FsError>(
                    root_block(x),
                )
            &&& i.format == FMT_EXTENT
            &&& i.size == data.len()
            &&& i.payload == mkfs::payload(
                inode::extents_image(
                    seq![Extent { file_block: 0, blk, blocks: n as u32 }],
                ),
            )
        }),
    ensures
        import::file_data(w, i) == Ok::<Seq<u8>, FsError>(data),
{
    let bs = x.sb.blocksize;
    let gs = x.m.entries;
    let ag = fmt::addr_ag(blk);
    let local = fmt::addr_local(blk);
    let n = fmt::ceil_div(data.len() as int, bs as int);
    let d1 = device::dev_writes(d, import::run_writes(gs, bs, ag, local, data)).0;
    let v1 = Vol { bytes: d1.bytes, groups: gs, bs };
    let e = Extent { file_block: 0, blk, blocks: n as u32 };
    assert(i.payload@ == inode::extents_image(seq![e])) by {
        inode::law_extents_round_trip(seq![e]);
        mkfs::lemma_payload(inode::extents_image(seq![e]));
    }
    assert forall|k: int| 0 <= k < n implies (#[trigger] import::run_addr(ag, local, k)) is Ok
        && vol::rd0(w, import::run_addr(ag, local, k)->Ok_0) == Ok::<Seq<u8>, FsError>(
        import::chunk(data, bs as int, k),
    ) by {
        lemma_run_hit(d, gs, bs, ag, local, data, k);
        let a = import::run_addr(ag, local, k)->Ok_0;
        assert(a != root_block(x));
        assert(vol::rd0(v1, a) is Ok);
    }
    lemma_file_data(w, i, e, data);
}

/// A stored run reads back, block by block.
proof fn lemma_run_hit(
    d: Dev,
    gs: Seq<Group>,
    bs: u32,
    ag: u32,
    local: u32,
    data: Seq<u8>,
    k: int,
)
    requires
        bs > 0,
        journal_laws::blocks_apart(gs, bs),
        0 <= k < fmt::ceil_div(data.len() as int, bs as int),
        local + fmt::ceil_div(data.len() as int, bs as int) <= 0x1_0000_0000,
        device::dev_writes(d, import::run_writes(gs, bs, ag, local, data)).1 is Ok,
    ensures
        import::run_addr(ag, local, k) is Ok,
        vol::rd0(
            Vol {
                bytes: device::dev_writes(
                    d,
                    import::run_writes(gs, bs, ag, local, data),
                ).0.bytes,
                groups: gs,
                bs,
            },
            import::run_addr(ag, local, k)->Ok_0,
        ) == Ok::<Seq<u8>, FsError>(import::chunk(data, bs as int, k)),
{
    let items = import::run_writes(gs, bs, ag, local, data);
    journal_laws::lemma_writes_ok(d, items, k);
    assert forall|i: int| k < i < items.len() implies ((#[trigger] items[i]).0 matches Ok(q)
        ==> journal_laws::apart(
        items[k].0->Ok_0 as int,
        items[k].1.len() as int,
        q as int,
        items[i].1.len() as int,
    )) by {
        let a = import::run_addr(ag, local, k)->Ok_0;
        let b = import::run_addr(ag, local, i)->Ok_0;
        fmt::law_address_halves(ag, (local + k) as u32, 0);
        fmt::law_address_halves(ag, (local + i) as u32, 0);
        assert(a != b);
        if items[i].0 is Ok {
            assert(vol::place(gs, bs, a) is Ok && vol::place(gs, bs, b) is Ok);
        }
    }
    journal_laws::lemma_writes_hit(d, items, k);
    journal_laws::lemma_writes_len(d, items);
}

// --- import -------------------------------------------------------------------

/// The slot that is found for a new inode is another than the root's, in the
/// same block.
pub proof fn lemma_slot_found(v: Vol, isz: u16, root: u64)
    requires
        slots_fit(v.bs, isz),
        fs::inode_of(v, isz, root) is Ok,
        import::slot_found(v, isz, root) is Ok,
    ensures
        ({
            let ino = import::slot_found(v, isz, root)->Ok_0;
            let slots = v.bs / isz as u32;
            &&& fmt::addr_ag(ino) == fmt::addr_ag(root)
            &&& ino == fmt::addr_of(fmt::addr_ag(root), fmt::addr_local(ino))
            &&& fmt::addr_local(ino) != fmt::addr_local(root)
            &&& fmt::addr_local(ino) / slots == fmt::addr_local(root) / slots
        }),
{
    let slots = (v.bs / isz as u32) as int;
    let at = fmt::addr_local(root) as int;
    let ag = fmt::addr_ag(root);
    assert(slots >= 1) by (nonlinear_arith)
        requires
            slots == v.bs as int / (isz as int),
            0 < isz <= v.bs,
    ;
    let base = at - at % slots;
    assert(0 <= at % slots <= at) by (nonlinear_arith)
        requires
            at >= 0,
            slots >= 1,
    ;
    lemma_spare_slot(v, isz, ag, base, base + slots);
    let ino = import::slot_found(v, isz, root)->Ok_0;
    let k = fmt::addr_local(ino) as int;
    fmt::law_address_halves(0, 0, root);
    assert(k / slots == at / slots) by (nonlinear_arith)
        requires
            base == at - at % slots,
            base <= k < base + slots,
            slots >= 1,
            at >= 0,
    ;
    if k == at {
        // a valid inode starts with its magic, a free slot with zeros
        let b = fs::slot_bytes(v, isz, root)->Ok_0;
        assert(b[0] == 0 && b[1] == 0);
        assert(fmt::u16_at(b.take(256), 0) == 0);
    }
}

pub proof fn lemma_spare_slot(v: Vol, isz: u16, ag: u32, k: int, end: int)
    requires
        0 <= k <= end <= u32::MAX,
        import::spare_slot(v, isz, ag, k, end) is Ok,
    ensures
        ({
            let ino = import::spare_slot(v, isz, ag, k, end)->Ok_0;
            &&& fmt::addr_ag(ino) == ag
            &&& ino == fmt::addr_of(ag, fmt::addr_local(ino))
            &&& k <= fmt::addr_local(ino) < end
            &&& fs::slot_bytes(v, isz, ino) matches Ok(b) && fmt::zero_bytes(b, 0, 256)
        }),
    decreases end - k,
{
    if k < end {
        fmt::law_address_halves(ag, k as u32, 0);
        let b = fs::slot_bytes(v, isz, fmt::addr_of(ag, k as u32))->Ok_0;
        if !fmt::zero_bytes(b, 0, 256) {
            lemma_spare_slot(v, isz, ag, k + 1, end);
        }
    }
}

/// A name that was not there is found once its entry stands at the end.
proof fn lemma_named_push(es: Seq<Dirent>, e: Dirent)
    requires
        import::named(es, e.name) is None,
    ensures
        import::named(es.push(e), e.name) == Some(e.ino),
    decreases es.len(),
{
    let all = es.push(e);
    if es.len() == 0 {
        assert(all[0] == e);
    } else {
        lemma_named_push(es.skip(1), e);
        assert(all.skip(1) =~= es.skip(1).push(e));
        assert(all[0] == es[0]);
    }
}

/// Blocks and slots that agree: an inode slot is read from its block.
pub proof fn lemma_slot_of_block(v: Vol, w: Vol, isz: u16, ag: u32, slot: u32)
    requires
        slots_fit(v.bs, isz),
        w.bs == v.bs,
        w.groups == v.groups,
        v.bytes.len() <= u64::MAX,
        w.bytes.len() == v.bytes.len(),
        ({
            let blk = fmt::addr_of(ag, slot / (v.bs / isz as u32));
            vol::rd0(v, blk) is Ok && vol::rd0(v, blk) == vol::rd0(w, blk)
        }),
    ensures
        fs::slot_bytes(v, isz, fmt::addr_of(ag, slot)) is Ok,
        fs::slot_bytes(v, isz, fmt::addr_of(ag, slot)) == fs::slot_bytes(
            w,
            isz,
            fmt::addr_of(ag, slot),
        ),
{
    lemma_spot(v.bs, isz, ag, slot);
    let (blk, o) = fs::inode_spot(v.bs, isz, fmt::addr_of(ag, slot));
    let p = vol::place(v.groups, v.bs, blk)->Ok_0 as int;
    let b = vol::rd0(v, blk)->Ok_0;
    assert(v.bytes.subrange(p + o, p + o + 256) =~= b.subrange(o, o + 256));
    assert(w.bytes.subrange(p + o, p + o + 256) =~= b.subrange(o, o + 256));
}

/// What an import consists of, once it succeeds.
pub proof fn lemma_imported_shape(x: Img, name: Seq<char>, data: Seq<u8>, mode: u16, now: Ts)
    requires
        import::imported(x, name, data, mode, now).1 is Ok,
    ensures
        ({
            let (u, r) = import::imported(x, name, data, mode, now);
            let ino = r->Ok_0;
            let (y, r1) = import::data_stored(x, ino, data, mode, now);
            let (z, r2) = import::inode_stored(y, ino, r1->Ok_0);
            let (w, r3) = import::entry_stored(z, Dirent { ino, ftype: DT_FILE, name }, now);
            &&& import::looked_up(vol_of(x), x.sb.inodesize, x.sb.root_ino, name) == Ok::<
                Option<u64>,
                FsError,
            >(None)
            &&& import::slot_found(vol_of(x), x.sb.inodesize, x.sb.root_ino) == Ok::<u64, FsError>(
                ino,
            )
            &&& r1 is Ok
            &&& r2 is Ok
            &&& r3 is Ok
            &&& u == Img { d: device::dev_sync(w.d), ..w }
        }),
{
}

/// What adding an entry consists of, once it succeeds.
pub proof fn lemma_entry_shape(x: Img, e: Dirent, now: Ts)
    requires
        import::entry_stored(x, e, now).1 is Ok,
    ensures
        ({
            let r = fs::inode_of(vol_of(x), x.sb.inodesize, x.sb.root_ino);
            let root = r->Ok_0;
            let p = if root.format == FMT_EMPTY {
                fmt::zeros(128)
            } else {
                root.payload@
            };
            let q = dirent::dir_appended(p, e);
            let i = Inode {
                format: if root.format == FMT_EMPTY {
                    FMT_EMBED
                } else {
                    root.format
                },
                payload: mkfs::payload(q->Ok_0),
                mtime: now,
                ctime: now,
                ..root
            };
            &&& r is Ok
            &&& q is Ok
            &&& import::entry_stored(x, e, now) == import::inode_stored(x, x.sb.root_ino, i)
        }),
{
    reveal(import::entry_stored);
}

/// The inode of a file that was imported: a regular file of one name with the length
/// of its contents, which are in the inode where they fit there.
pub open spec fn new_file(i: Inode, data: Seq<u8>, mode: u16, now: Ts) -> bool {
    &&& i.size == data.len()
    &&& i.mode == 0o100000 + mode % 0o10000
    &&& i.nlink == 1
    &&& i.uid == 0
    &&& i.gid == 0
    &&& i.flags == 0
    &&& i.gen == 0
    &&& i.atime == now
    &&& i.mtime == now
    &&& i.ctime == now
    &&& i.btime == now
    &&& i.xattr == 0
    &&& data.len() <= 128 ==> i.nblocks == 0
    &&& i.format == if data.len() == 0 {
        FMT_EMPTY
    } else if data.len() <= 128 {
        FMT_EMBED
    } else {
        FMT_EXTENT
    }
}

proof fn lemma_new_file(x: Img, ino: u64, data: Seq<u8>, mode: u16, now: Ts)
    requires
        data.len() <= u64::MAX,
        import::data_stored(x, ino, data, mode, now).1 is Ok,
    ensures
        new_file(import::data_stored(x, ino, data, mode, now).1->Ok_0, data, mode, now),
{
    reveal(import::data_stored);
}

/// A file that was imported reads back byte for byte under the inode number
/// that was returned, and is found under its name. Its inode has its size, its
/// permissions and one link.
#[verifier::rlimit(30)]
pub proof fn law_imported_file_reads_back(
    x: Img,
    name: Seq<char>,
    data: Seq<u8>,
    mode: u16,
    now: Ts,
)
    requires
        importable(x),
        vol::rd0(vol_of(x), root_block(x)) is Ok,
        fs::inode_of(vol_of(x), x.sb.inodesize, x.sb.root_ino) matches Ok(root)
            ==> root.format == FMT_EMBED ==> dirent::dir_clean(root.payload@),
        fmt::ceil_div(data.len() as int, x.sb.blocksize as int) * x.sb.blocksize <= usize::MAX,
        import::imported(x, name, data, mode, now).1 is Ok,
    ensures
        ({
            let (u, r) = import::imported(x, name, data, mode, now);
            let ino = r->Ok_0;
            &&& import::file_of(vol_of(u), u.sb.inodesize, ino) == Ok::<Seq<u8>, FsError>(data)
            &&& import::looked_up(vol_of(u), u.sb.inodesize, u.sb.root_ino, name) == Ok::<
                Option<u64>,
                FsError,
            >(Some(ino))
            &&& fs::inode_of(vol_of(u), u.sb.inodesize, ino) matches Ok(i) && new_file(
                i,
                data,
                mode,
                now,
            )
            &&& u.d.writable
        }),
{
    let bs = x.sb.blocksize;
    let isz = x.sb.inodesize;
    let root = x.sb.root_ino;
    fmt::lemma_ceil_div(data.len() as int, bs as int);
    lemma_imported_shape(x, name, data, mode, now);
    let ino = import::imported(x, name, data, mode, now).1->Ok_0;
    let r0 = fs::inode_of(vol_of(x), isz, root)->Ok_0;
    lemma_slot_found(vol_of(x), isz, root);
    let ag = root_ag(x);
    let slots = bs / isz as u32;
    let a = fmt::addr_local(ino);
    let b = fmt::addr_local(root);
    fmt::law_address_halves(0, 0, root);
    assert(root == fmt::addr_of(ag, b));
    lemma_spot(bs, isz, ag, a);
    lemma_spot(bs, isz, ag, b);
    let blk = root_block(x);
    let y = import::data_stored(x, ino, data, mode, now).0;
    let i = import::data_stored(x, ino, data, mode, now).1->Ok_0;
    lemma_data_stored(x, ino, data, mode, now, vol_of(y));
    // the new inode
    lemma_inode_stored(y, ag, a, i);
    let z = import::inode_stored(y, ino, i).0;
    // the root inode is still what it was
    lemma_slot_of_block(vol_of(x), vol_of(y), isz, ag, b);
    assert(fs::slot_bytes(vol_of(z), isz, root) == fs::slot_bytes(vol_of(x), isz, root));
    assert(fs::inode_of(vol_of(z), isz, root) == Ok::<Inode, FsError>(r0));
    // the new entry
    let e = Dirent { ino, ftype: DT_FILE, name };
    lemma_entry_shape(z, e, now);
    let p = if r0.format == FMT_EMPTY {
        fmt::zeros(128)
    } else {
        r0.payload@
    };
    let q = dirent::dir_appended(p, e)->Ok_0;
    let r1 = Inode {
        format: if r0.format == FMT_EMPTY {
            FMT_EMBED
        } else {
            r0.format
        },
        payload: mkfs::payload(q),
        mtime: now,
        ctime: now,
        ..r0
    };
    lemma_inode_stored(z, ag, b, r1);
    let w = import::inode_stored(z, root, r1).0;
    assert(fs::slot_bytes(vol_of(w), isz, ino) == fs::slot_bytes(vol_of(z), isz, ino));
    assert(fs::inode_of(vol_of(w), isz, ino) == Ok::<Inode, FsError>(i));
    assert(agrees(x, vol_of(y), vol_of(w))) by {
        assert forall|c: u64|
            c != blk && vol::rd0(vol_of(y), c) is Ok implies #[trigger] vol::rd0(vol_of(w), c)
            == vol::rd0(vol_of(y), c) by {
            assert(vol::rd0(vol_of(z), c) == vol::rd0(vol_of(y), c));
        }
    }
    lemma_data_stored(x, ino, data, mode, now, vol_of(w));
    lemma_new_file(x, ino, data, mode, now);
    // the listing
    dirent::lemma_zero_payload_clean(fmt::zeros(128));
    assert(ino != 0) by {
        fmt::law_address_halves(0, 0, ino);
        if ino == 0 {
            assert(ag == 0 && a == 0);
            assert(0u32 / slots == 0) by (nonlinear_arith)
                requires
                    slots >= 1,
            ;
            fmt::law_address_halves(0, 0, blk);
        }
    }
    dirent::law_dir_append_then_parse(p, e);
    mkfs::lemma_payload(q);
    let es = dirent::dir_entries_of(p);
    assert(import::named(es, name) is None);
    lemma_named_push(es, e);
    let u = Img { d: device::dev_sync(w.d), ..w };
    assert(vol_of(u) == vol_of(w));
}

/// A second import under the same name is refused, whatever it brings, and changes
/// nothing: the first file stays under its name with what it holds.
pub proof fn law_second_import_is_refused(
    x: Img,
    name: Seq<char>,
    data: Seq<u8>,
    mode: u16,
    now: Ts,
    data2: Seq<u8>,
    mode2: u16,
    now2: Ts,
)
    requires
        importable(x),
        vol::rd0(vol_of(x), root_block(x)) is Ok,
        fs::inode_of(vol_of(x), x.sb.inodesize, x.sb.root_ino) matches Ok(root)
            ==> root.format == FMT_EMBED ==> dirent::dir_clean(root.payload@),
        fmt::ceil_div(data.len() as int, x.sb.blocksize as int) * x.sb.blocksize <= usize::MAX,
        import::imported(x, name, data, mode, now).1 is Ok,
    ensures
        ({
            let (u, r) = import::imported(x, name, data, mode, now);
            &&& import::imported(u, name, data2, mode2, now2) == (u, Err::<u64, FsError>(
                FsError::Exists,
            ))
            &&& import::looked_up(vol_of(u), u.sb.inodesize, u.sb.root_ino, name) == Ok::<
                Option<u64>,
                FsError,
            >(Some(r->Ok_0))
            &&& import::file_of(vol_of(u), u.sb.inodesize, r->Ok_0) == Ok::<Seq<u8>, FsError>(data)
        }),
{
    law_imported_file_reads_back(x, name, data, mode, now);
}

// --- a new volume -------------------------------------------------------------

/// The place of any mapped block of a new volume.
proof fn lemma_made_place(d: Dev, o: MkfsOpts, p: Plan, lens: Seq<u32>, blk: u64)
    requires
        mkfs_laws::planned(d, o, p, lens),
        vol::place(mkfs::first_map(lens, o.blocksize).entries, o.blocksize, blk) is Ok,
    ensures
        ({
            let ag = fmt::addr_ag(blk) as int;
            let local = fmt::addr_local(blk) as int;
            &&& ag < lens.len()
            &&& local < lens[ag]
            &&& vol::place(mkfs::first_map(lens, o.blocksize).entries, o.blocksize, blk)->Ok_0 == (
            mkfs::blocks_before(lens, ag) + local) * o.blocksize
        }),
{
    let bs = o.blocksize;
    let gs = mkfs::first_map(lens, bs).entries;
    let ag = fmt::addr_ag(blk) as int;
    let local = fmt::addr_local(blk);
    let a = mkfs::blocks_before(lens, ag);
    let total = mkfs::blocks_before(lens, lens.len() as int);
    mkfs::lemma_before_monotonic(lens, ag, lens.len() as int);
    assert(0 <= a * bs <= total * bs) by (nonlinear_arith)
        requires
            0 <= a <= total,
            bs > 0,
    ;
    let w = agmap::AgSegment { ag_block: 0, blocks: lens[ag], dev_offset: (a * bs) as u64 };
    assert(gs[ag].segs =~= seq![w]);
    assert(agmap::find_seg(seq![w], local) == Some(w));
    assert((a + local) * bs == a * bs + local * bs) by (nonlinear_arith);
}

/// No two blocks of a new volume have the same place.
proof fn lemma_made_apart(d: Dev, o: MkfsOpts, p: Plan, lens: Seq<u32>)
    requires
        mkfs_laws::planned(d, o, p, lens),
    ensures
        journal_laws::blocks_apart(mkfs::first_map(lens, o.blocksize).entries, o.blocksize),
{
    let bs = o.blocksize as int;
    let gs = mkfs::first_map(lens, o.blocksize).entries;
    assert forall|x: u64, y: u64|
        #![trigger vol::place(gs, o.blocksize, x), vol::place(gs, o.blocksize, y)]
        x != y && vol::place(gs, o.blocksize, x) is Ok && vol::place(gs, o.blocksize, y) is Ok implies journal_laws::apart(
        vol::place(gs, o.blocksize, x)->Ok_0 as int,
        bs,
        vol::place(gs, o.blocksize, y)->Ok_0 as int,
        bs,
    ) by {
        lemma_made_place(d, o, p, lens, x);
        lemma_made_place(d, o, p, lens, y);
        fmt::law_address_halves(0, 0, x);
        fmt::law_address_halves(0, 0, y);
        let (a, i) = (fmt::addr_ag(x) as int, fmt::addr_local(x) as int);
        let (b, j) = (fmt::addr_ag(y) as int, fmt::addr_local(y) as int);
        let m = mkfs::blocks_before(lens, a) + i;
        let n = mkfs::blocks_before(lens, b) + j;
        if a < b {
            mkfs::lemma_before_monotonic(lens, a + 1, b);
        } else if b < a {
            mkfs::lemma_before_monotonic(lens, b + 1, a);
        }
        assert(m != n);
        assert(m < n ==> m * bs + bs <= n * bs) by (nonlinear_arith)
            requires
                bs > 0,
        ;
        assert(n < m ==> n * bs + bs <= m * bs) by (nonlinear_arith)
            requires
                bs > 0,
        ;
    }
}

/// The block that holds the first inode.
proof fn lemma_first_spot(p: Plan, bs: u32, isz: u16)
    requires
        p.wf(bs),
        isz > 0,
        (bs / isz as u32) * isz == bs,
        1 <= bs / isz as u32 <= 16,
        bs > 0,
    ensures
        fmt::addr_ag(mkfs::first_ino(p, bs, isz)) == 0,
        fs::inode_spot(bs, isz, mkfs::first_ino(p, bs, isz)).0 == fmt::addr_of(0, p.inodes()),
        fmt::addr_of(0, p.inodes()) != 0,
        bs % isz as u32 == 0,
{
    let slots = bs / isz as u32;
    let base = p.inodes() * slots;
    assert(0 <= base <= u32::MAX && base * isz == p.inodes() * bs) by (nonlinear_arith)
        requires
            base == p.inodes() * slots,
            slots * isz == bs,
            0 <= p.inodes() <= 0xfff_ffff,
            0 <= slots <= 16,
    ;
    assert(bs % isz as u32 == 0) by (nonlinear_arith)
        requires
            (bs / isz as u32) * isz == bs,
            isz > 0,
    ;
    fmt::law_address_halves(0, base as u32, 0);
    vstd::arithmetic::div_mod::lemma_fundamental_div_mod_converse(
        base * isz,
        bs as int,
        p.inodes() as int,
        0,
    );
    fmt::law_address_halves(0, p.inodes(), 0);
    fmt::law_address_halves(0, 0, 0);
}

/// The first inode block is in use as nothing else.
proof fn lemma_first_taken(d: Dev, o: MkfsOpts, p: Plan, lens: Seq<u32>, x: Img)
    requires
        mkfs_laws::planned(d, o, p, lens),
        x.m == mkfs::first_map(lens, o.blocksize),
        x.sb.blocksize == o.blocksize,
        x.sb.inodesize == o.inodesize,
        x.sb.root_ino == mkfs::first_ino(p, o.blocksize, o.inodesize),
        fs::header_of(vol_of(x), Map::empty(), 0) == Ok::<AgHeader, FsError>(
            mkfs::first_header(p),
        ),
        import::root_table_of(vol_of(x), mkfs::first_header(p)) == Ok::<Seq<u8>, FsError>(
            mkfs::first_table(p, o.blocksize),
        ),
    ensures
        root_block_taken(x),
{
    let bs = o.blocksize;
    let hdr = mkfs::first_header(p);
    lemma_first_spot(p, bs, o.inodesize);
    mkfs_laws::lemma_byte_places(d, o, p, lens);
    mkfs_laws::lemma_first_place(d, o, p, lens, p.inodes());
    resize::lemma_table_small(p.length, bs);
    new_tables::lemma_first_table(p, bs);
    tables::lemma_addr(0, p.inodes(), 1);
    fmt::law_address_halves(0, p.inodes(), 0);
    assert forall|i: int|
        0 <= i < header::table_blocks(hdr.length, bs) implies #[trigger] import::run_addr(
        0,
        hdr.alloc_root,
        i,
    ) != Ok::<u64, FsError>(root_block(x)) by {
        tables::lemma_addr(0, p.inodes(), (2 + i) as u32);
    }
    assert(p.inodes() as int / 256 == p.head + 1);
    assert(mkfs::blocks_before(lens, 0) * bs == 0) by (nonlinear_arith)
        requires
            mkfs::blocks_before(lens, 0) == 0,
    ;
}

/// Files can be imported into a finished volume: an import that succeeds reads
/// back.
pub proof fn law_made_volume_is_importable(d: Dev, o: MkfsOpts, uuid: [u8; 16], now: Ts)
    requires
        d.bytes.len() <= u64::MAX,
        mkfs::kernel_len(o) <= u64::MAX,
        mkfs::opts_flaw(o) is None,
        mkfs::made(d, o, uuid, now).1 is Ok,
    ensures
        ({
            let x = Img {
                d: mkfs::made(d, o, uuid, now).0,
                sb: mkfs_laws::super_of(d, o, uuid),
                m: mkfs::first_map(mkfs_laws::lens_of(d, o), o.blocksize),
            };
            &&& importable(x)
            &&& vol::rd0(vol_of(x), root_block(x)) is Ok
        }),
{
    let bs = o.blocksize;
    let isz = o.inodesize;
    let p = mkfs_laws::layout_of(d, o)->Ok_0;
    let lens = mkfs_laws::lens_of(d, o);
    let x = Img {
        d: mkfs::made(d, o, uuid, now).0,
        sb: mkfs_laws::super_of(d, o, uuid),
        m: mkfs::first_map(lens, bs),
    };
    let v = mkfs_laws::vol_made(d, o, uuid, now);
    mkfs_laws::lemma_planned(d, o, uuid, now);
    assert(x.sb.blocksize == bs && x.sb.inodesize == isz && x.sb.root_ino == mkfs::first_ino(
        p,
        bs,
        isz,
    )) by {
        reveal(mkfs::first_super);
    }
    assert(vol_of(x) == v);
    lemma_made_apart(d, o, p, lens);
    assert(x.d.bytes.len() == d.bytes.len() && root_block_taken(x)) by {
        lemma_made_taken(d, o, p, lens, uuid, now, x);
    }
    lemma_first_spot(p, bs, isz);
    mkfs_laws::lemma_first_place(d, o, p, lens, p.inodes());
}

/// On a finished volume the first inode block is in use as nothing else.
proof fn lemma_made_taken(
    d: Dev,
    o: MkfsOpts,
    p: Plan,
    lens: Seq<u32>,
    uuid: [u8; 16],
    now: Ts,
    x: Img,
)
    requires
        mkfs_laws::planned(d, o, p, lens),
        mkfs::filled(d, o, p, lens, uuid, now).1 is Ok,
        x.d.bytes == mkfs::filled(d, o, p, lens, uuid, now).0.bytes,
        x.m == mkfs::first_map(lens, o.blocksize),
        x.sb.blocksize == o.blocksize,
        x.sb.inodesize == o.inodesize,
        x.sb.root_ino == mkfs::first_ino(p, o.blocksize, o.inodesize),
    ensures
        x.d.bytes.len() == d.bytes.len(),
        root_block_taken(x),
{
    let bs = o.blocksize;
    let v = vol_of(x);
    let hdr = mkfs::first_header(p);
    let tbl = mkfs::first_table(p, bs);
    mkfs_laws::lemma_first_made(d, o, p, lens, uuid, now, v);
    mkfs_laws::lemma_filled(d, o, p, lens, uuid, now);
    journal_laws::lemma_writes_len(d, mkfs_laws::all_writes(o, p, lens, uuid, now));
    resize::lemma_table_small(p.length, bs);
    new_tables::lemma_first_table(p, bs);
    assert(0int * bs == 0) by (nonlinear_arith);
    assert(tbl.take(0) =~= Seq::empty());
    new_tables::lemma_table_read(v, hdr, tbl, 0);
    lemma_first_taken(d, o, p, lens, x);
}

} // verus!
