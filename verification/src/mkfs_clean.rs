//! A new volume checks clean: neither errors nor warnings.

use crate::device::Dev;
use crate::error::FsError;
use crate::fmt::{CELL_FREE, CELL_REFINED, CELL_RSVD};
use crate::fsck::{Rep, Tally, What};
use crate::inode::{Extent, Ts};
use crate::mkfs::{MkfsOpts, Plan};
use crate::superblock::Superblock;
use crate::vol::Vol;
use vstd::prelude::*;

use crate::agmap;
use crate::device;
use crate::dirent;
use crate::fmt;
use crate::fs;
use crate::fsck;
use crate::header;
use crate::inode;
use crate::journal_laws;
use crate::mkfs;
use crate::mkfs_laws;
use crate::new_tables;
use crate::record;
use crate::resize;
use crate::roottable;
use crate::superblock;
use crate::tables;
use crate::utf16;
use crate::vol;

verus! {

// --- counting -----------------------------------------------------------------

/// The tally with `n` free blocks more.
spec fn freer(a: Tally, n: int) -> Tally {
    Tally { free: a.free + n, ..a }
}

/// Counting a new group from cell `c` on.
proof fn lemma_base_counted(v: Vol, ag: u32, len: u32, used: int, a: Tally, c: int)
    requires
        len > 0,
        v.bs >= 512,
        0 < used <= len,
        0 <= c <= header::cell_count(len),
    ensures
        ({
            let cells = header::cell_count(len);
            let head = fmt::ceil_div(used, 256);
            let from = if c < head {
                head
            } else {
                c
            };
            let end = if len % 256 != 0 && cells > from {
                cells - 1
            } else {
                cells
            };
            fsck::cells_counted(v, ag, resize::base_table(len, v.bs, used), cells, a, c) == Ok::<
                Tally,
                FsError,
            >(freer(a, (end - from) * 256))
        }),
    decreases header::cell_count(len) - c,
{
    let cells = header::cell_count(len);
    let t = resize::base_table(len, v.bs, used);
    new_tables::lemma_base_table(len, v.bs, used);
    if c < cells {
        let st = fmt::cell_at(t, c);
        lemma_base_counted(v, ag, len, used, fsck::plus(a, st, 256), c + 1);
    }
}

/// The free blocks of a new group, and that its header can hold their number.
pub proof fn lemma_new_free(len: u32, bs: u32)
    requires
        len > 1,
        bs >= 512,
    ensures
        ({
            let used = 1 + header::table_blocks(len, bs);
            let cells = header::cell_count(len);
            let head = fmt::ceil_div(used, 256);
            let end = if len % 256 != 0 && cells > head {
                cells - 1
            } else {
                cells
            };
            &&& used <= len
            &&& resize::new_free(len, bs) == (end - head) * 256
            &&& 0 <= resize::new_free(len, bs) <= len
        }),
{
    let used = 1 + header::table_blocks(len, bs);
    let cells = header::cell_count(len);
    let head = fmt::ceil_div(used, 256);
    resize::lemma_table_small(len, bs);
    fmt::lemma_ceil_div(used, 256);
    new_tables::lemma_base_table(len, bs, used);
    let n = header::table_blocks(len, bs) * bs;
    let z = fmt::zeros(n as nat);
    resize::lemma_cells_filled(z, 0, head, CELL_RSVD, cells - 1);
    assert(z[(cells - 1) / 4] == 0);
}

/// The record of the first inode block counts one block in use.
proof fn lemma_chain_blocks(r: (u32, u16), a: Tally)
    ensures
        fsck::blocks_counted(mkfs::chain_record(r), a, 0) == (Tally {
            free: a.free + 15,
            full: a.full + 1,
        }),
{
    lemma_chain_states(r);
    reveal_with_fuel(fsck::blocks_counted, 17);
}

/// The states in a chain record.
proof fn lemma_chain_states(r: (u32, u16))
    ensures
        mkfs::chain_record(r).len() == 128,
        record::ref_of(mkfs::chain_record(r), 0) == r,
        forall|i: int|
            0 <= i < 16 ==> #[trigger] fmt::cell_at(mkfs::chain_record(r), i) == if i == 0 {
                CELL_REFINED
            } else {
                CELL_FREE
            },
{
    let z = fmt::zeros(record::REC_SIZE as nat);
    let y = fmt::cell_put(z, 0, CELL_REFINED);
    tables::lemma_rec_fields(z, 0, CELL_REFINED, r);
    tables::lemma_rec_fields(y, 0, CELL_REFINED, r);
    assert forall|i: int| 0 <= i < 16 implies #[trigger] fmt::cell_at(mkfs::chain_record(r), i)
        == if i == 0 {
        CELL_REFINED
    } else {
        CELL_FREE
    } by {
        assert(fmt::cell_at(mkfs::chain_record(r), i) == fmt::cell_at(y, i));
        assert(z[i / 4] == 0);
    }
}

/// The inode cell of the first group counts one block in use.
proof fn lemma_inode_cell(v: Vol, p: Plan, a: Tally)
    requires
        v.bs >= 2048,
        vol::rd0(v, fmt::addr_of(0, p.arena())) == Ok::<Seq<u8>, FsError>(
            mkfs::arena_block(p, v.bs),
        ),
    ensures
        roottable::record_of(v, Map::empty(), 0, (p.arena(), 0)) == Ok::<Seq<u8>, FsError>(
            mkfs::chain_record((p.arena(), 1)),
        ),
        fsck::subcells_counted(v, 0, mkfs::chain_record((p.arena(), 1)), a, 0) == Ok::<
            Tally,
            FsError,
        >(Tally { free: a.free + 255, full: a.full + 1 }),
{
    new_tables::lemma_arena_block(p, v.bs);
    lemma_chain_states((p.arena(), 1));
    assert(roottable::rec_off_of(0) == 128 && roottable::rec_off_of(1) == 256);
    assert(roottable::record_of(v, Map::empty(), 0, (p.arena(), 1)) == Ok::<Seq<u8>, FsError>(
        mkfs::chain_record((p.arena(), 2)),
    ));
    lemma_chain_blocks((p.arena(), 2), a);
    reveal_with_fuel(fsck::subcells_counted, 17);
}

/// Counting the first group from cell `c` on.
proof fn lemma_first_counted(v: Vol, p: Plan, a: Tally, c: int)
    requires
        v.bs >= 2048,
        p.wf(v.bs),
        vol::rd0(v, fmt::addr_of(0, p.arena())) == Ok::<Seq<u8>, FsError>(
            mkfs::arena_block(p, v.bs),
        ),
        0 <= c <= p.cells,
    ensures
        fsck::cells_counted(v, 0, mkfs::first_table(p, v.bs), p.cells as int, a, c) == Ok::<
            Tally,
            FsError,
        >(
            if c <= p.head + 1 {
                Tally { free: a.free + p.free, full: a.full + 1 }
            } else if c < p.cells {
                freer(a, (p.cells - 1 - c) * 256)
            } else {
                a
            },
        ),
    decreases p.cells - c,
{
    let t = mkfs::first_table(p, v.bs);
    new_tables::lemma_first_table(p, v.bs);
    if c < p.cells {
        let st = fmt::cell_at(t, c);
        if c == p.head + 1 {
            lemma_inode_cell(v, p, a);
            assert(fsck::table_ref(t, p.cells as int, c) == (p.arena(), 0u16));
            lemma_first_counted(v, p, Tally { free: a.free + 255, full: a.full + 1 }, c + 1);
        } else {
            lemma_first_counted(v, p, fsck::plus(a, st, 256), c + 1);
        }
    }
}

// --- groups -------------------------------------------------------------------

/// The first group checks clean.
proof fn lemma_first_clean(v: Vol, r: Rep, p: Plan)
    requires
        v.bs >= 2048,
        p.wf(v.bs),
        v.groups.len() > 0,
        v.groups[0] == resize::whole_group(3, p.length, 0),
        fs::header_of(v, Map::empty(), 0) == Ok::<header::AgHeader, FsError>(
            mkfs::first_header(p),
        ),
        new_tables::shows(v, mkfs::first_header(p), mkfs::first_table(p, v.bs)),
        vol::rd0(v, fmt::addr_of(0, p.arena())) == Ok::<Seq<u8>, FsError>(
            mkfs::arena_block(p, v.bs),
        ),
    ensures
        fsck::group_checked(v, r, 0, v.groups[0]) == (r, p.free as int),
{
    let hdr = mkfs::first_header(p);
    let tbl = mkfs::first_table(p, v.bs);
    resize::lemma_table_small(p.length, v.bs);
    new_tables::lemma_first_table(p, v.bs);
    assert(0int * v.bs == 0) by (nonlinear_arith);
    assert(tbl.take(0) =~= Seq::empty());
    new_tables::lemma_table_read(v, hdr, tbl, 0);
    lemma_first_counted(v, p, Tally { free: 0, full: 0 }, 0);
    reveal_with_fuel(fsck::mapped_blocks, 2);
}

/// A later group checks clean.
pub proof fn lemma_later_clean(v: Vol, r: Rep, ag: u32, len: u32, off: u64)
    requires
        v.bs >= 2048,
        1 <= ag < v.groups.len(),
        len > 1,
        v.groups[ag as int] == resize::whole_group(1, len, off),
        fs::header_of(v, Map::empty(), ag) == Ok::<header::AgHeader, FsError>(
            resize::new_header(ag, len, v.bs),
        ),
        new_tables::shows(
            v,
            resize::new_header(ag, len, v.bs),
            resize::base_table(len, v.bs, 1 + header::table_blocks(len, v.bs)),
        ),
    ensures
        fsck::group_checked(v, r, ag, v.groups[ag as int]) == (r, resize::new_free(len, v.bs)),
{
    let hdr = resize::new_header(ag, len, v.bs);
    let used = 1 + header::table_blocks(len, v.bs);
    let tbl = resize::base_table(len, v.bs, used);
    resize::lemma_table_small(len, v.bs);
    lemma_new_free(len, v.bs);
    new_tables::lemma_base_table(len, v.bs, used);
    assert(0int * v.bs == 0) by (nonlinear_arith);
    assert(tbl.take(0) =~= Seq::empty());
    new_tables::lemma_table_read(v, hdr, tbl, 0);
    fmt::lemma_ceil_div(used, 256);
    lemma_base_counted(v, ag, len, used, Tally { free: 0, full: 0 }, 0);
    reveal_with_fuel(fsck::mapped_blocks, 2);
}

/// Every entry takes room in the AG map.
pub proof fn lemma_entries_bound(gs: Seq<agmap::Group>)
    ensures
        agmap::groups_size(gs) >= 8 * gs.len(),
    decreases gs.len(),
{
    if gs.len() > 0 {
        lemma_entries_bound(gs.drop_last());
    }
}

/// The free blocks of the later groups are among their blocks.
pub proof fn lemma_later_free(lens: Seq<u32>, bs: u32, n: int)
    requires
        1 <= n <= lens.len(),
        bs >= 512,
        forall|i: int| 1 <= i < lens.len() ==> #[trigger] lens[i] > 1,
    ensures
        0 <= mkfs::later_free(lens, bs, n) <= mkfs::blocks_before(lens, n) - lens[0],
    decreases n,
{
    if n > 1 {
        lemma_later_free(lens, bs, n - 1);
        assert(lens[n - 1] > 1);
        lemma_new_free(lens[n - 1], bs);
    } else {
        reveal_with_fuel(mkfs::blocks_before, 2);
    }
}

/// A group that checks clean leaves the report as it is.
proof fn lemma_group_step(v: Vol, r: Rep, sum: int, i: int, n: int)
    requires
        0 <= i < v.groups.len(),
        fsck::group_checked(v, r, i as u32, v.groups[i]) == (r, n),
    ensures
        fsck::groups_checked(v, r, sum, i) == fsck::groups_checked(v, r, sum + n, i + 1),
{
}

/// The groups from `i` on check clean, and their free blocks are summed up.
#[verifier::rlimit(40)]
proof fn lemma_groups_clean(
    d: Dev,
    o: MkfsOpts,
    p: Plan,
    lens: Seq<u32>,
    uuid: [u8; 16],
    now: Ts,
    v: Vol,
    r: Rep,
    sum: int,
    i: int,
)
    requires
        mkfs_laws::planned(d, o, p, lens),
        mkfs::filled(d, o, p, lens, uuid, now).1 is Ok,
        forall|i: int| 1 <= i < lens.len() ==> #[trigger] lens[i] > 1,
        v.bs == o.blocksize,
        v.groups == mkfs::first_map(lens, o.blocksize).entries,
        v.bytes == mkfs::filled(d, o, p, lens, uuid, now).0.bytes,
        1 <= i <= lens.len() <= u32::MAX,
    ensures
        fsck::groups_checked(v, r, sum, i) == (
            r,
            sum + mkfs::later_free(lens, v.bs, lens.len() as int) - mkfs::later_free(
                lens,
                v.bs,
                i,
            ),
        ),
    decreases lens.len() - i,
{
    if i < lens.len() {
        let off = (mkfs::blocks_before(lens, i) * v.bs) as u64;
        mkfs_laws::lemma_later_made(d, o, p, lens, uuid, now, v, i as u32);
        assert(lens[i] > 1);
        lemma_later_clean(v, r, i as u32, lens[i], off);
        lemma_group_step(v, r, sum, i, resize::new_free(lens[i], v.bs));
        assert(mkfs::later_free(lens, v.bs, i + 1) == mkfs::later_free(lens, v.bs, i)
            + resize::new_free(lens[i], v.bs));
        lemma_groups_clean(
            d,
            o,
            p,
            lens,
            uuid,
            now,
            v,
            r,
            sum + resize::new_free(lens[i], v.bs),
            i + 1,
        );
    }
}

// --- the root directory -------------------------------------------------------

/// A file of one extent that is mapped and long enough has no flaws.
proof fn lemma_one_extent(gs: Seq<agmap::Group>, bs: u32, i: inode::Inode, e: Extent)
    requires
        inode::extents_of(i.payload@) == seq![e],
        fsck::extent_mapped(gs, bs, e),
        e.blocks >= fmt::ceil_div(i.size as int, bs as int),
    ensures
        fsck::extent_flaws(gs, bs, i) == Seq::<What>::empty(),
{
    reveal_with_fuel(fsck::covered, 2);
    reveal_with_fuel(fsck::unmapped, 2);
    assert(fsck::covered(seq![e], 1) == e.blocks);
    assert(fsck::unmapped(gs, bs, seq![e], 1) == Seq::<What>::empty());
}

/// The first and the last block of the kernel are mapped.
proof fn lemma_kernel_mapped(d: Dev, o: MkfsOpts, p: Plan, lens: Seq<u32>)
    requires
        mkfs_laws::planned(d, o, p, lens),
        p.kernel > 0,
    ensures
        fsck::extent_mapped(
            mkfs::first_map(lens, o.blocksize).entries,
            o.blocksize,
            Extent { file_block: 0, blk: fmt::addr_of(0, p.kernel_at), blocks: p.kernel },
        ),
{
    let last = (p.kernel_at + (p.kernel - 1)) as u32;
    mkfs_laws::lemma_first_place(d, o, p, lens, p.kernel_at);
    mkfs_laws::lemma_first_place(d, o, p, lens, last);
    fmt::law_address_halves(0, p.kernel_at, 0);
    fmt::law_address_halves(0, last, 0);
}

/// A file whose only extent is empty has no flaws if it holds nothing.
proof fn lemma_no_extent(gs: Seq<agmap::Group>, bs: u32, i: inode::Inode, e: Extent)
    requires
        bs > 0,
        i.payload@ == inode::extents_image(seq![e]),
        e.blocks == 0,
        i.size == 0,
    ensures
        fsck::extent_flaws(gs, bs, i) == Seq::<What>::empty(),
{
    inode::lemma_image_extent(seq![e], 0);
    assert(inode::extents_of(i.payload@) =~= Seq::<Extent>::empty());
    assert(fsck::covered(Seq::<Extent>::empty(), 0) == 0);
    assert(fsck::unmapped(gs, bs, Seq::<Extent>::empty(), 0) =~= Seq::<What>::empty());
    fmt::lemma_ceil_div(0, bs as int);
}

/// The extents of the kernel's inode are in order.
#[verifier::rlimit(40)]
proof fn lemma_kernel_extents(d: Dev, o: MkfsOpts, p: Plan, lens: Seq<u32>, now: Ts, len: u64)
    requires
        mkfs_laws::planned(d, o, p, lens),
        len == mkfs::kernel_len(o),
    ensures
        fsck::extent_flaws(
            mkfs::first_map(lens, o.blocksize).entries,
            o.blocksize,
            mkfs::kernel_inode(now, p, len),
        ) == Seq::<What>::empty(),
{
    let bs = o.blocksize;
    let gs = mkfs::first_map(lens, bs).entries;
    let e = Extent { file_block: 0, blk: fmt::addr_of(0, p.kernel_start()), blocks: p.kernel };
    let image = inode::extents_image(seq![e]);
    let i = mkfs::kernel_inode(now, p, len);
    assert(image.len() == 128) by {
        inode::lemma_image_extent(seq![e], 0);
    }
    mkfs::lemma_payload(image);
    assert(i.payload@ == image);
    fmt::lemma_ceil_div(len as int, bs as int);
    if p.kernel > 0 {
        assert(inode::extents_of(image) == seq![e]) by {
            inode::law_extents_round_trip(seq![e]);
        }
        lemma_kernel_mapped(d, o, p, lens);
        lemma_one_extent(gs, bs, i, e);
    } else {
        assert(p.kernel * bs == 0) by (nonlinear_arith)
            requires
                p.kernel == 0,
        ;
        lemma_no_extent(gs, bs, i, e);
    }
}

/// The directory of a volume made with a kernel.
pub proof fn lemma_kernel_entry(root: u64)
    requires
        0 < root < u64::MAX,
    ensures
        dirent::dir_entries_of(
            mkfs::payload(
                fmt::splice(fmt::zeros(128), 0, dirent::entry_bytes(mkfs::kernel_entry(root))),
            )@,
        ) == seq![mkfs::kernel_entry(root)],
{
    let ent = mkfs::kernel_entry(root);
    let z = fmt::zeros(128);
    dirent::lemma_zero_payload_clean(z);
    assert(utf16::encode_utf16(ent.name).len() == 10) by {
        reveal_strlit("kernel.bin");
        reveal_with_fuel(utf16::encode_utf16, 12);
    }
    assert(dirent::entries_len(Seq::<dirent::Dirent>::empty()) == 0);
    dirent::law_dir_append_then_parse(z, ent);
    let q = fmt::splice(z, 0, dirent::entry_bytes(ent));
    assert(dirent::dir_appended(z, ent) == Ok::<Seq<u8>, fmt::FmtError>(q));
    mkfs::lemma_payload(q);
    assert(dirent::dir_entries_of(q) =~= seq![ent]);
}

/// The root directory checks clean.
proof fn lemma_root_clean(d: Dev, o: MkfsOpts, uuid: [u8; 16], now: Ts, r: Rep)
    requires
        d.bytes.len() <= u64::MAX,
        mkfs::kernel_len(o) <= u64::MAX,
        mkfs::opts_flaw(o) is None,
        mkfs::made(d, o, uuid, now).1 is Ok,
    ensures
        ({
            let r1 = fsck::root_checked(
                mkfs_laws::vol_made(d, o, uuid, now),
                r,
                mkfs_laws::super_of(d, o, uuid),
            );
            r1.errors == r.errors && r1.warnings == r.warnings
        }),
{
    let v = mkfs_laws::vol_made(d, o, uuid, now);
    let sb = mkfs_laws::super_of(d, o, uuid);
    let p = mkfs_laws::layout_of(d, o)->Ok_0;
    let lens = mkfs_laws::lens_of(d, o);
    let kernel = mkfs::kernel_of(o) is Some;
    let root = mkfs::root_inode(now, sb.root_ino, kernel);
    mkfs_laws::lemma_planned(d, o, uuid, now);
    mkfs_laws::law_made_root_reads_back(d, o, uuid, now);
    assert(sb.inodesize == o.inodesize) by {
        reveal(mkfs::first_super);
    }
    assert(root.spec_is_dir());
    assert(fsck::root_flaws(v, sb.uuid@, root) =~= Seq::<What>::empty());
    if kernel {
        mkfs_laws::lemma_kernel_inode(d, o, uuid, now);
        lemma_kernel_entry(sb.root_ino);
        let es = seq![mkfs::kernel_entry(sb.root_ino)];
        assert(fsck::root_entries(v, root) == Ok::<Seq<dirent::Dirent>, FsError>(es));
        lemma_kernel_extents(d, o, p, lens, now, (mkfs::kernel_of(o)->0).len() as u64);
        reveal_with_fuel(fsck::entries_checked, 2);
    } else {
        assert(fsck::root_entries(v, root) == Ok::<Seq<dirent::Dirent>, FsError>(Seq::empty()));
    }
}

// --- the whole ----------------------------------------------------------------

/// The report is put together from its parts.
proof fn lemma_report(bytes: Seq<u8>, sb: Superblock, m: agmap::Groups, sum: int)
    requires
        device::dev_read(bytes, 0, 512) == Ok::<Seq<u8>, FsError>(superblock::sb_bytes(sb)),
        superblock::sb_parse(superblock::sb_bytes(sb)) == Ok::<Superblock, fmt::FmtError>(sb),
        sb.incompat == 0,
        fs::map_copy(bytes, sb, 0) == Ok::<agmap::Groups, FsError>(m),
        fs::map_copy(bytes, sb, 1) == Ok::<agmap::Groups, FsError>(m),
        m.entries.len() == sb.next_ag,
        fs::backup_place(m.entries, sb.blocksize) matches Some(Ok(off)) && device::dev_read(
            bytes,
            off,
            512,
        ) == Ok::<Seq<u8>, FsError>(superblock::sb_bytes(sb)),
        sum == sb.free_blocks,
        forall|r: Rep|
            #[trigger] fsck::groups_checked(
                Vol { bytes, groups: m.entries, bs: sb.blocksize },
                r,
                0,
                0,
            ) == (r, sum),
        forall|r: Rep|
            (#[trigger] fsck::root_checked(
                Vol { bytes, groups: m.entries, bs: sb.blocksize },
                r,
                sb,
            )).errors == r.errors && fsck::root_checked(
                Vol { bytes, groups: m.entries, bs: sb.blocksize },
                r,
                sb,
            ).warnings == r.warnings,
    ensures
        fsck::checked(bytes) matches Ok(r) && r.errors.len() == 0 && r.warnings.len() == 0,
{
}

/// A finished volume checks clean: there is nothing to report but what it is.
pub proof fn law_made_volume_checks_clean(d: Dev, o: MkfsOpts, uuid: [u8; 16], now: Ts)
    requires
        d.bytes.len() <= u64::MAX,
        mkfs::kernel_len(o) <= u64::MAX,
        mkfs::opts_flaw(o) is None,
        mkfs::made(d, o, uuid, now).1 is Ok,
    ensures
        fsck::checked(mkfs::made(d, o, uuid, now).0.bytes) matches Ok(r) && r.errors.len() == 0
            && r.warnings.len() == 0,
{
    let bs = o.blocksize;
    let p = mkfs_laws::layout_of(d, o)->Ok_0;
    let lens = mkfs_laws::lens_of(d, o);
    let n = lens.len() as int;
    let sb = mkfs_laws::super_of(d, o, uuid);
    let m = mkfs::first_map(lens, bs);
    let v = mkfs_laws::vol_made(d, o, uuid, now);
    let sum = p.free + mkfs::later_free(lens, bs, n);
    mkfs_laws::lemma_planned(d, o, uuid, now);
    mkfs_laws::lemma_later_lengths(d, o, p);
    mkfs_laws::lemma_filled(d, o, p, lens, uuid, now);
    lemma_entries_bound(m.entries);
    lemma_maps_stand(d, o, uuid, now);
    lemma_later_free(lens, bs, n);
    lemma_total(d, o, p, lens);
    assert(sb.free_blocks == sum && sb.incompat == 0 && sb.next_ag == n && sb.blocksize == bs) by {
        reveal(mkfs::first_super);
    }
    assert forall|r: Rep| #[trigger] fsck::groups_checked(v, r, 0, 0) == (r, sum) by {
        lemma_all_groups_clean(d, o, uuid, now, r);
    }
    assert forall|r: Rep|
        (#[trigger] fsck::root_checked(v, r, sb)).errors == r.errors && fsck::root_checked(
            v,
            r,
            sb,
        ).warnings == r.warnings by {
        lemma_root_clean(d, o, uuid, now, r);
    }
    lemma_report(v.bytes, sb, m, sum);
}

/// All groups of a finished volume check clean.
proof fn lemma_all_groups_clean(d: Dev, o: MkfsOpts, uuid: [u8; 16], now: Ts, r: Rep)
    requires
        d.bytes.len() <= u64::MAX,
        mkfs::kernel_len(o) <= u64::MAX,
        mkfs::opts_flaw(o) is None,
        mkfs::made(d, o, uuid, now).1 is Ok,
    ensures
        ({
            let lens = mkfs_laws::lens_of(d, o);
            fsck::groups_checked(mkfs_laws::vol_made(d, o, uuid, now), r, 0, 0) == (
                r,
                mkfs_laws::layout_of(d, o)->Ok_0.free + mkfs::later_free(
                    lens,
                    o.blocksize,
                    lens.len() as int,
                ),
            )
        }),
{
    let bs = o.blocksize;
    let p = mkfs_laws::layout_of(d, o)->Ok_0;
    let lens = mkfs_laws::lens_of(d, o);
    let m = mkfs::first_map(lens, bs);
    let v = mkfs_laws::vol_made(d, o, uuid, now);
    mkfs_laws::lemma_planned(d, o, uuid, now);
    mkfs_laws::lemma_later_lengths(d, o, p);
    mkfs_laws::lemma_filled(d, o, p, lens, uuid, now);
    lemma_entries_bound(m.entries);
    mkfs_laws::lemma_first_made(d, o, p, lens, uuid, now, v);
    assert(mkfs::blocks_before(lens, 0) * bs == 0) by (nonlinear_arith)
        requires
            mkfs::blocks_before(lens, 0) == 0,
    ;
    lemma_first_clean(v, r, p);
    lemma_groups_clean(d, o, p, lens, uuid, now, v, r, p.free as int, 1);
    assert(mkfs::later_free(lens, bs, 1) == 0);
}

/// The blocks of a volume can be counted in 64 bits.
pub proof fn lemma_total(d: Dev, o: MkfsOpts, p: Plan, lens: Seq<u32>)
    requires
        mkfs_laws::planned(d, o, p, lens),
    ensures
        mkfs::blocks_before(lens, lens.len() as int) <= u64::MAX,
{
    let total = mkfs::blocks_before(lens, lens.len() as int);
    mkfs::lemma_before_monotonic(lens, 0, lens.len() as int);
    assert(total <= total * o.blocksize) by (nonlinear_arith)
        requires
            o.blocksize >= 1,
            total >= 0,
    ;
}

/// Both map copies, the superblock and its backup read back.
#[verifier::rlimit(60)]
proof fn lemma_maps_stand(d: Dev, o: MkfsOpts, uuid: [u8; 16], now: Ts)
    requires
        d.bytes.len() <= u64::MAX,
        mkfs::kernel_len(o) <= u64::MAX,
        mkfs::opts_flaw(o) is None,
        mkfs::made(d, o, uuid, now).1 is Ok,
    ensures
        ({
            let sb = mkfs_laws::super_of(d, o, uuid);
            let m = mkfs::first_map(mkfs_laws::lens_of(d, o), o.blocksize);
            let b = mkfs::made(d, o, uuid, now).0.bytes;
            &&& device::dev_read(b, 0, 512) == Ok::<Seq<u8>, FsError>(superblock::sb_bytes(sb))
            &&& superblock::sb_parse(superblock::sb_bytes(sb)) == Ok::<Superblock, fmt::FmtError>(
                sb,
            )
            &&& fs::map_copy(b, sb, 0) == Ok::<agmap::Groups, FsError>(m)
            &&& fs::map_copy(b, sb, 1) == Ok::<agmap::Groups, FsError>(m)
            &&& fs::backup_place(m.entries, sb.blocksize) matches Some(Ok(off))
                && device::dev_read(b, off, 512) == Ok::<Seq<u8>, FsError>(
                superblock::sb_bytes(sb),
            )
        }),
{
    mkfs_laws::lemma_planned(d, o, uuid, now);
    let bs = o.blocksize;
    let p = mkfs_laws::layout_of(d, o)->Ok_0;
    let lens = mkfs_laws::lens_of(d, o);
    let sb = mkfs_laws::super_of(d, o, uuid);
    let m = mkfs::first_map(lens, bs);
    let e = mkfs::made(d, o, uuid, now).0;
    reveal(mkfs::first_super);
    mkfs_laws::lemma_byte_places(d, o, p, lens);
    mkfs_laws::lemma_filled(d, o, p, lens, uuid, now);
    journal_laws::lemma_sb_bytes_len(sb);
    agmap::lemma_image_len(m, mkfs::AGMAP_BYTES as int);
    let c = mkfs::last_writes(p, sb, m);
    assert(c.len() == 5);
    mkfs_laws::lemma_last_stands(d, o, p, lens, uuid, now, 3);
    mkfs_laws::lemma_last_stands(d, o, p, lens, uuid, now, 0);
    mkfs_laws::lemma_last_stands(d, o, p, lens, uuid, now, 1);
    mkfs_laws::lemma_last_stands(d, o, p, lens, uuid, now, 4);
    superblock::law_superblock_round_trip(sb);
    agmap::law_agmap_round_trip(m, mkfs::AGMAP_BYTES as int);
    assert(mkfs::blocks_before(lens, 0) * bs == 0) by (nonlinear_arith)
        requires
            mkfs::blocks_before(lens, 0) == 0,
    ;
}

} // verus!
