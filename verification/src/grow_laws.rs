//! What growing, moving and retiring do to the map and to the counters: stated
//! on the entries, offsets and counts themselves.

use vstd::prelude::*;

use crate::agmap;
use crate::agmap::{AgSegment, Group, Groups};
use crate::device;
use crate::error::FsError;
use crate::fmt;
use crate::fs;
use crate::fsck;
use crate::header;
use crate::mkfs_clean;
use crate::resize;
use crate::resize::Img;
use crate::resize_laws;
use crate::superblock;
use crate::superblock::Superblock;
use crate::vol::Vol;

verus! {

// --- the end of the mapped part -----------------------------------------------

/// Whether the mapped part of the device ends at byte `end`: no segment reaches
/// past it, and one ends there unless nothing is mapped.
pub open spec fn ends_at(gs: Seq<Group>, bs: u32, end: int) -> bool {
    &&& 0 <= end
    &&& forall|i: int, j: int|
        0 <= i < gs.len() && 0 <= j < gs[i].segs.len() ==> (#[trigger] gs[i].segs[j]).dev_offset
            + gs[i].segs[j].blocks * bs <= end
    &&& end == 0 || exists|i: int, j: int|
        0 <= i < gs.len() && 0 <= j < gs[i].segs.len() && (#[trigger] gs[i].segs[j]).dev_offset
            + gs[i].segs[j].blocks * bs == end
}

/// The end over the segments of one group, from a start on.
proof fn lemma_segs_end(segs: Seq<AgSegment>, bs: u32, from: int)
    ensures
        resize::segs_end(segs, bs, from) >= from,
        forall|j: int|
            0 <= j < segs.len() ==> (#[trigger] segs[j]).dev_offset + segs[j].blocks * bs
                <= resize::segs_end(segs, bs, from),
        resize::segs_end(segs, bs, from) == from || exists|j: int|
            0 <= j < segs.len() && (#[trigger] segs[j]).dev_offset + segs[j].blocks * bs
                == resize::segs_end(segs, bs, from),
    decreases segs.len(),
{
    if segs.len() > 0 {
        let t = segs.drop_last();
        lemma_segs_end(t, bs, from);
        assert forall|j: int| 0 <= j < segs.len() implies (#[trigger] segs[j]).dev_offset
            + segs[j].blocks * bs <= resize::segs_end(segs, bs, from) by {
            if j < t.len() {
                assert(segs[j] == t[j]);
            }
        }
        if resize::segs_end(segs, bs, from) != from {
            if resize::segs_end(segs, bs, from) == resize::segs_end(t, bs, from) {
                let j = choose|j: int|
                    0 <= j < t.len() && (#[trigger] t[j]).dev_offset + t[j].blocks * bs
                        == resize::segs_end(t, bs, from);
                assert(segs[j] == t[j]);
            } else {
                assert(segs[segs.len() - 1] == segs.last());
            }
        }
    }
}

/// Where the search for the end arrives is the end.
proof fn lemma_ends_at(gs: Seq<Group>, bs: u32)
    ensures
        ends_at(gs, bs, resize::groups_end(gs, bs)),
    decreases gs.len(),
{
    if gs.len() > 0 {
        let t = gs.drop_last();
        let from = resize::groups_end(t, bs);
        let end = resize::groups_end(gs, bs);
        lemma_ends_at(t, bs);
        lemma_segs_end(gs.last().segs, bs, from);
        let n = gs.len() - 1;
        assert forall|i: int, j: int|
            0 <= i < gs.len() && 0 <= j < gs[i].segs.len() implies (#[trigger] gs[i].segs[j]).dev_offset
            + gs[i].segs[j].blocks * bs <= end by {
            if i < n {
                assert(t[i].segs[j] == gs[i].segs[j]);
            } else {
                assert(gs[i] == gs.last());
            }
        }
        if end != 0 {
            if end == from {
                let (i, j) = choose|i: int, j: int|
                    0 <= i < t.len() && 0 <= j < t[i].segs.len() && (
                    #[trigger] t[i].segs[j]).dev_offset + t[i].segs[j].blocks * bs == from;
                assert(gs[i].segs[j] == t[i].segs[j]);
            } else {
                let j = choose|j: int|
                    0 <= j < gs.last().segs.len() && (#[trigger] gs.last().segs[j]).dev_offset
                        + gs.last().segs[j].blocks * bs == end;
                assert(gs[n].segs[j] == gs.last().segs[j]);
            }
        }
    }
}

/// The mapped part has one end.
pub proof fn law_one_end(gs: Seq<Group>, bs: u32, a: int, b: int)
    requires
        ends_at(gs, bs, a),
        ends_at(gs, bs, b),
    ensures
        a == b,
{
    if a != 0 {
        let (i, j) = choose|i: int, j: int|
            0 <= i < gs.len() && 0 <= j < gs[i].segs.len() && (#[trigger] gs[i].segs[j]).dev_offset
                + gs[i].segs[j].blocks * bs == a;
        assert(gs[i].segs[j].dev_offset + gs[i].segs[j].blocks * bs <= b);
    }
    if b != 0 {
        let (i, j) = choose|i: int, j: int|
            0 <= i < gs.len() && 0 <= j < gs[i].segs.len() && (#[trigger] gs[i].segs[j]).dev_offset
                + gs[i].segs[j].blocks * bs == b;
        assert(gs[i].segs[j].dev_offset + gs[i].segs[j].blocks * bs <= a);
    }
}

/// Storing the map changes no counter and nothing in the superblock but its
/// generation.
proof fn lemma_stored_super(x: Img)
    ensures
        ({
            let y = resize::map_stored(x).0;
            &&& y.sb == Superblock { gen: y.sb.gen, ..x.sb }
            &&& y.m.entries == x.m.entries
            &&& y.d.bytes.len() == x.d.bytes.len()
        }),
{
    resize_laws::lemma_map_stored(x);
}

// --- growing ------------------------------------------------------------------

/// What adding `len` blocks at byte `off` leaves behind: the old entries as they
/// were, one more in one piece under the next id, and as many more blocks in the
/// superblock's counters of what is not allocated.
pub open spec fn one_more(x: Img, y: Img, off: int, len: int) -> bool {
    let n = x.m.entries.len() as int;
    let g = y.m.entries[n];
    &&& y.m.entries.len() == n + 1
    &&& y.m.entries.take(n) == x.m.entries
    &&& g.length == len
    &&& g.flags == 1
    &&& g.segs.len() == 1
    &&& g.segs[0].ag_block == 0
    &&& g.segs[0].blocks == len
    &&& g.segs[0].dev_offset == off
    &&& y.sb.free_blocks + y.sb.rsvd_blocks == x.sb.free_blocks + x.sb.rsvd_blocks + len
    &&& y.sb.free_blocks >= x.sb.free_blocks
    &&& y.sb.rsvd_blocks >= x.sb.rsvd_blocks
    &&& y.sb.next_ag == x.sb.next_ag + 1
    &&& y.sb == (Superblock {
        gen: y.sb.gen,
        free_blocks: y.sb.free_blocks,
        rsvd_blocks: y.sb.rsvd_blocks,
        next_ag: y.sb.next_ag,
        ..x.sb
    })
}

/// A new group takes the whole blocks of the region that it was given, all of
/// them, and less than a block stays over. Nothing else of the map changes, and
/// free and reserved blocks together rise by the group's blocks.
#[verifier::rlimit(60)]
#[verifier::spinoff_prover]
pub proof fn law_new_group_covers_its_region(x: Img, off: u64, bytes: u64, len: int)
    requires
        x.sb.blocksize >= 512,
        len * x.sb.blocksize <= bytes < len * x.sb.blocksize + x.sb.blocksize,
        len <= u32::MAX,
        resize::group_added(x, off, bytes).1 is Ok,
    ensures
        resize::group_added(x, off, bytes).1 == Ok::<u32, FsError>(x.sb.next_ag),
        one_more(x, resize::group_added(x, off, bytes).0, off as int, len),
        resize::group_added(x, off, bytes).0.d.bytes.len() == x.d.bytes.len(),
{
    let bs = x.sb.blocksize;
    let ag = x.sb.next_ag;
    lemma_quotient(bytes as int, bs as int, len);
    let l = len as u32;
    assert(len >= 0) by (nonlinear_arith)
        requires
            bytes < len * bs + bs,
            bytes >= 0,
            bs > 0,
    ;
    assert(len % 0x1_0000_0000 == len);
    let free = resize::new_free(l, bs);
    let tb = header::table_blocks(l, bs);
    let items = seq![
        (Ok::<u64, FsError>(off), fs::header_block(resize::new_header(ag, l, bs), bs)),
        (Ok::<u64, FsError>((off + bs) as u64), resize::base_table(l, bs, 1 + tb)),
    ];
    let (d1, r1) = device::dev_writes(x.d, items);
    crate::journal_laws::lemma_writes_len(x.d, items);
    mkfs_clean::lemma_new_free(l, bs);
    let z = Img {
        d: device::dev_sync(d1),
        sb: Superblock {
            next_ag: (ag + 1) as u32,
            free_blocks: (x.sb.free_blocks + free) as u64,
            rsvd_blocks: (x.sb.rsvd_blocks + (l - free)) as u64,
            ..x.sb
        },
        m: Groups {
            entries: x.m.entries.push(resize::whole_group(crate::fmt::AGF_PRESENT, l, off)),
            ..x.m
        },
    };
    lemma_stored_super(z);
    let y = resize::group_added(x, off, bytes).0;
    assert(y == resize::map_stored(z).0);
    assert(y.m.entries.take(x.m.entries.len() as int) =~= x.m.entries);
}

/// Between its multiples a number has one quotient.
proof fn lemma_quotient(a: int, b: int, q: int)
    requires
        b > 0,
        q * b <= a < q * b + b,
    ensures
        a / b == q,
{
    vstd::arithmetic::div_mod::lemma_fundamental_div_mod_converse(a, b, q, a - q * b);
}

/// Growing to a size past the end of the mapped part maps everything up to it:
/// the new group is one segment that starts where the mapped part ended, and
/// less than one block lies between its end and the size asked for. All earlier
/// entries stay, and free and reserved blocks together rise by the new group's
/// blocks. The device reaches to the size at least.
#[verifier::rlimit(60)]
#[verifier::spinoff_prover]
pub proof fn law_growing_reaches_the_size(x: Img, size: usize, end: int, len: int)
    requires
        x.sb.blocksize >= 512,
        ends_at(x.m.entries, x.sb.blocksize, end),
        end < size,
        size <= u64::MAX,
        end + len * x.sb.blocksize <= size < end + len * x.sb.blocksize + x.sb.blocksize,
        len <= u32::MAX,
        resize::grown(x, size).1 is Ok,
    ensures
        resize::grown(x, size).1 == Ok::<u32, FsError>(x.sb.next_ag),
        one_more(x, resize::grown(x, size).0, end, len),
        ends_at(
            resize::grown(x, size).0.m.entries,
            x.sb.blocksize,
            end + len * x.sb.blocksize,
        ),
        resize::grown(x, size).0.d.bytes.len() >= size,
        resize::grown(x, size).0.d.bytes.len() >= x.d.bytes.len(),
{
    let bs = x.sb.blocksize;
    let gs = x.m.entries;
    lemma_ends_at(gs, bs);
    law_one_end(gs, bs, end, resize::groups_end(gs, bs));
    let d1 = if size > x.d.bytes.len() {
        device::Dev {
            bytes: device::applied(x.d.bytes, device::Io::SetLen(size as u64)),
            log: x.d.log.push(device::Io::SetLen(size as u64)),
            ..x.d
        }
    } else {
        x.d
    };
    let w = Img { d: d1, ..x };
    law_new_group_covers_its_region(w, end as u64, (size - end) as u64, len);
    let y = resize::grown(x, size).0;
    let n = gs.len() as int;
    let ng = y.m.entries;
    assert(len >= 0) by (nonlinear_arith)
        requires
            size < end + len * bs + bs,
            end < size,
            bs > 0,
    ;
    assert(len * bs >= 0) by (nonlinear_arith)
        requires
            len >= 0,
            bs > 0,
    ;
    assert forall|i: int, j: int|
        0 <= i < ng.len() && 0 <= j < ng[i].segs.len() implies (#[trigger] ng[i].segs[j]).dev_offset
        + ng[i].segs[j].blocks * bs <= end + len * bs by {
        if i < n {
            assert(ng[i] == ng.take(n)[i]);
            assert(gs[i].segs[j] == ng[i].segs[j]);
        }
    }
    assert(ng[n].segs[0].dev_offset + ng[n].segs[0].blocks * bs == end + len * bs);
}

/// A size that is not past the end of the mapped part is refused, and nothing
/// changes.
pub proof fn law_growing_goes_past_the_end(x: Img, size: usize, end: int)
    requires
        ends_at(x.m.entries, x.sb.blocksize, end),
        size <= end <= u64::MAX,
    ensures
        resize::grown(x, size) == (
            x,
            Err::<u32, FsError>(FsError::NotPastEnd { size: size as u64, end: end as u64 }),
        ),
{
    lemma_ends_at(x.m.entries, x.sb.blocksize);
    law_one_end(
        x.m.entries,
        x.sb.blocksize,
        end,
        resize::groups_end(x.m.entries, x.sb.blocksize),
    );
}

/// A group is only added where nothing is mapped, on a block boundary, and with
/// 1024 blocks or more.
pub proof fn law_new_group_takes_free_room(x: Img, off: u64, bytes: u64)
    requires
        x.sb.blocksize > 0,
        resize::group_added(x, off, bytes).1 is Ok,
    ensures
        off % x.sb.blocksize as u64 == 0,
        bytes >= 1024 * x.sb.blocksize,
        forall|i: int, j: int|
            0 <= i < x.m.entries.len() && 0 <= j < x.m.entries[i].segs.len() ==> {
                let s = #[trigger] x.m.entries[i].segs[j];
                s.dev_offset + s.blocks * x.sb.blocksize <= off || off + bytes <= s.dev_offset
            },
{
    let bs = x.sb.blocksize;
    let gs = x.m.entries;
    let q = bytes as int / bs as int;
    assert(q * bs <= bytes && q >= 0) by (nonlinear_arith)
        requires
            q == (bytes as int) / (bs as int),
            bs > 0,
            bytes >= 0,
    ;
    assert(q >= 1024);
    assert(1024 * bs <= q * bs) by (nonlinear_arith)
        requires
            q >= 1024,
            bs > 0,
    ;
    assert forall|i: int, j: int| 0 <= i < gs.len() && 0 <= j < gs[i].segs.len() implies {
        let s = #[trigger] gs[i].segs[j];
        s.dev_offset + s.blocks * bs <= off || off + bytes <= s.dev_offset
    } by {
        assert(!resize::seg_meets(gs[i].segs[j], bs, off as int, bytes as int));
    }
}

/// Whether map and superblock can be stored on a device of `n` bytes: both
/// copies of the map and the backup of the superblock lie on it, a copy has
/// room for the entries, and the generations count on.
pub open spec fn has_room(x: Img, entries: Seq<Group>, n: int) -> bool {
    let bs = x.sb.blocksize;
    &&& x.d.writable
    &&& x.m.gen < u64::MAX
    &&& x.sb.gen < u64::MAX
    &&& n >= 512
    &&& x.sb.agmap_offset + 2 * x.sb.agmap_length <= n
    &&& x.sb.agmap_length >= 24
    &&& agmap::groups_size(entries) <= x.sb.agmap_length
    &&& entries.len() > 0 && entries[0].segs.len() > 0 ==> {
        let s = entries[0].segs[0];
        s.blocks > 0 && s.dev_offset + (s.blocks - 1) * bs + 512 <= n
    }
}

/// With room for both, storing map and superblock succeeds.
#[verifier::rlimit(60)]
#[verifier::spinoff_prover]
proof fn lemma_stored_ok(x: Img)
    requires
        x.d.bytes.len() <= u64::MAX,
        has_room(x, x.m.entries, x.d.bytes.len() as int),
    ensures
        resize::map_stored(x).1 is Ok,
{
    let m1 = Groups { gen: (x.m.gen + 1) as u64, ..x.m };
    agmap::lemma_image_len(m1, x.sb.agmap_length as int);
    let sb1 = Superblock { gen: (x.sb.gen + 1) as u64, ..x.sb };
    crate::journal_laws::lemma_sb_bytes_len(sb1);
    let (d1, m2, r1) = fs::map_write(x.d, x.sb, x.m);
    assert(r1 is Ok);
    assert(m2 == m1);
    let items = fs::sb_writes(sb1, m1.entries);
    let first = device::dev_write(d1, 0, superblock::sb_bytes(sb1)).0;
    reveal_with_fuel(device::dev_writes, 3);
    if let Some(p) = fs::backup_place(m1.entries, sb1.blocksize) {
        assert(p is Ok);
        assert(items.skip(1)[0] == items[1]);
        assert(items.skip(1).skip(1).len() == 0);
    } else {
        assert(items.skip(1).len() == 0);
    }
}

/// Growing succeeds wherever it can: past an end on a block boundary, by 1024
/// blocks or more, while ids and counters count on and the map has room for one
/// more entry.
#[verifier::rlimit(60)]
#[verifier::spinoff_prover]
pub proof fn law_growing_succeeds(x: Img, size: usize, end: int, len: int)
    requires
        x.sb.blocksize >= 512,
        ends_at(x.m.entries, x.sb.blocksize, end),
        end < size,
        size <= u64::MAX,
        end % x.sb.blocksize as int == 0,
        end + len * x.sb.blocksize <= size < end + len * x.sb.blocksize + x.sb.blocksize,
        1024 <= len <= u32::MAX,
        x.sb.next_ag < u32::MAX,
        x.sb.free_blocks + len <= u64::MAX,
        x.sb.rsvd_blocks + len <= u64::MAX,
        x.d.bytes.len() <= u64::MAX,
        agmap::groups_size(x.m.entries) + 24 <= x.sb.agmap_length,
        x.m.entries.len() > 0,
        has_room(
            x,
            x.m.entries,
            if x.d.bytes.len() > size {
                x.d.bytes.len() as int
            } else {
                size as int
            },
        ),
    ensures
        resize::grown(x, size).1 == Ok::<u32, FsError>(x.sb.next_ag),
{
    let bs = x.sb.blocksize;
    let gs = x.m.entries;
    lemma_ends_at(gs, bs);
    law_one_end(gs, bs, end, resize::groups_end(gs, bs));
    let d0 = if size > x.d.bytes.len() {
        device::Dev {
            bytes: device::applied(x.d.bytes, device::Io::SetLen(size as u64)),
            log: x.d.log.push(device::Io::SetLen(size as u64)),
            ..x.d
        }
    } else {
        x.d
    };
    let w = Img { d: d0, ..x };
    let off = end as u64;
    let bytes = (size - end) as u64;
    let ag = x.sb.next_ag;
    lemma_quotient(bytes as int, bs as int, len);
    let l = len as u32;
    let tb = header::table_blocks(l, bs);
    let free = resize::new_free(l, bs);
    mkfs_clean::lemma_new_free(l, bs);
    resize_laws::lemma_new_group_size(l, bs, bytes as int);
    resize_laws::lemma_header_block_len(resize::new_header(ag, l, bs), bs);
    assert(off % bs as u64 == 0);
    assert(!resize::region_taken(gs, bs, off as int, bytes as int, -1)) by {
        assert forall|i: int, j: int|
            0 <= i < gs.len() && 0 <= j < gs[i].segs.len() implies !#[trigger] resize::seg_meets(
            gs[i].segs[j],
            bs,
            off as int,
            bytes as int,
        ) by {
            assert(gs[i].segs[j].dev_offset + gs[i].segs[j].blocks * bs <= end);
        }
    }
    assert(bs <= len * bs) by (nonlinear_arith)
        requires
            len >= 1024,
            bs > 0,
    ;
    let items = seq![
        (Ok::<u64, FsError>(off), fs::header_block(resize::new_header(ag, l, bs), bs)),
        (Ok::<u64, FsError>((off + bs) as u64), resize::base_table(l, bs, 1 + tb)),
    ];
    let (d1, r1) = device::dev_writes(d0, items);
    assert(d0.bytes.len() >= size);
    assert(r1 is Ok) by {
        reveal_with_fuel(device::dev_writes, 3);
        assert(items.skip(1)[0] == items[1]);
        assert(items.skip(1).skip(1).len() == 0);
    }
    crate::journal_laws::lemma_writes_len(d0, items);
    let ng = gs.push(resize::whole_group(crate::fmt::AGF_PRESENT, l, off));
    let z = Img {
        d: device::dev_sync(d1),
        sb: Superblock {
            next_ag: (ag + 1) as u32,
            free_blocks: (x.sb.free_blocks + free) as u64,
            rsvd_blocks: (x.sb.rsvd_blocks + (l - free)) as u64,
            ..x.sb
        },
        m: Groups { entries: ng, ..x.m },
    };
    assert(ng.drop_last() =~= gs);
    assert(ng[0] == gs[0]);
    lemma_stored_ok(z);
    assert(resize::group_added(w, off, bytes).1 is Ok);
}

/// A group that growing added checks clean, and its free blocks by the check's
/// count are what the superblock's free blocks rose by.
#[verifier::rlimit(60)]
#[verifier::spinoff_prover]
pub proof fn law_grown_group_checks_clean(x: Img, off: u64, bytes: u64, len: int, r: fsck::Rep)
    requires
        x.sb.blocksize >= 2048,
        len * x.sb.blocksize <= bytes < len * x.sb.blocksize + x.sb.blocksize,
        len <= u32::MAX,
        resize_laws::anchored(x),
        x.d.bytes.len() <= u64::MAX,
        x.sb.next_ag == x.m.entries.len(),
        x.m.entries.len() >= 1,
        resize::group_added(x, off, bytes).1 is Ok,
    ensures
        ({
            let y = resize::group_added(x, off, bytes).0;
            let v = Vol { bytes: y.d.bytes, groups: y.m.entries, bs: y.sb.blocksize };
            let ag = x.sb.next_ag;
            fsck::group_checked(v, r, ag, y.m.entries[ag as int]) == (
                r,
                y.sb.free_blocks - x.sb.free_blocks,
            )
        }),
{
    let bs = x.sb.blocksize;
    let ag = x.sb.next_ag;
    law_new_group_covers_its_region(x, off, bytes, len);
    law_new_group_takes_free_room(x, off, bytes);
    resize_laws::law_new_group_has_sound_tables(x, off, bytes);
    lemma_quotient(bytes as int, bs as int, len);
    assert(len > 1) by (nonlinear_arith)
        requires
            bytes >= 1024 * bs,
            bytes < len * bs + bs,
            bs > 0,
    ;
    assert(len % 0x1_0000_0000 == len);
    let l = len as u32;
    let y = resize::group_added(x, off, bytes).0;
    let v = Vol { bytes: y.d.bytes, groups: y.m.entries, bs: y.sb.blocksize };
    let g = y.m.entries[ag as int];
    assert(g.segs =~= seq![AgSegment { ag_block: 0, blocks: l, dev_offset: off }]);
    assert(g == resize::whole_group(1, l, off));
    mkfs_clean::lemma_later_clean(v, r, ag, l, off);
    mkfs_clean::lemma_new_free(l, bs);
    lemma_rise(x, off, bytes, l);
}

/// The free blocks of a new group are added to the superblock's.
proof fn lemma_rise(x: Img, off: u64, bytes: u64, len: u32)
    requires
        x.sb.blocksize >= 512,
        len == (bytes as int / x.sb.blocksize as int % 0x1_0000_0000) as u32,
        len > 1,
        resize::group_added(x, off, bytes).1 is Ok,
    ensures
        resize::group_added(x, off, bytes).0.sb.free_blocks == x.sb.free_blocks
            + resize::new_free(len, x.sb.blocksize),
{
    mkfs_clean::lemma_new_free(len, x.sb.blocksize);
}

// --- retiring -----------------------------------------------------------------

/// Retiring takes an empty group other than the first out of the map: its entry
/// stays with no segment, every other entry stays as it is, and the counters of
/// the superblock lose exactly what the group's header counts.
#[verifier::rlimit(60)]
#[verifier::spinoff_prover]
pub proof fn law_retiring_releases_the_group(x: Img, ag: u32, h: header::AgHeader)
    requires
        fs::header_of(
            Vol { bytes: x.d.bytes, groups: x.m.entries, bs: x.sb.blocksize },
            Map::empty(),
            ag,
        ) == Ok::<header::AgHeader, FsError>(h),
    ensures
        ag == 0 ==> resize::retired(x, ag) == (x, Err::<(), FsError>(FsError::RetireFirst)),
        ag > 0 && h.full_blocks > 0 ==> resize::retired(x, ag) == (
            x,
            Err::<(), FsError>(FsError::StillAllocated { ag, blocks: h.full_blocks }),
        ),
        resize::retired(x, ag).1 is Ok ==> {
            let y = resize::retired(x, ag).0;
            let g = y.m.entries[ag as int];
            &&& 0 < ag < x.m.entries.len()
            &&& x.m.entries[ag as int].flags % 2 == 1
            &&& h.full_blocks == 0
            &&& y.m.entries == x.m.entries.update(ag as int, g)
            &&& g.flags == 4
            &&& g.segs.len() == 0
            &&& g.length == x.m.entries[ag as int].length
            &&& y.sb.free_blocks + h.free_blocks == x.sb.free_blocks
            &&& y.sb.rsvd_blocks + h.rsvd_blocks == x.sb.rsvd_blocks
            &&& y.sb == (Superblock {
                gen: y.sb.gen,
                free_blocks: y.sb.free_blocks,
                rsvd_blocks: y.sb.rsvd_blocks,
                ..x.sb
            })
            &&& y.d.bytes.len() == x.d.bytes.len()
        },
{
    if resize::retired(x, ag).1 is Ok {
        let gs = x.m.entries;
        let z = Img {
            sb: Superblock {
                free_blocks: (x.sb.free_blocks - h.free_blocks) as u64,
                rsvd_blocks: (x.sb.rsvd_blocks - h.rsvd_blocks) as u64,
                ..x.sb
            },
            m: Groups {
                entries: gs.update(
                    ag as int,
                    Group { flags: fmt::AGF_RETIRED, segs: Seq::empty(), ..gs[ag as int] },
                ),
                ..x.m
            },
            ..x
        };
        lemma_stored_super(z);
    }
}

// --- moving -------------------------------------------------------------------

/// A group that was moved lies in one segment at the destination, with its
/// flags and its length; every other entry and every counter stays. It was
/// present and movable, and the destination is on a block boundary, on the
/// device, and free of all other groups.
pub proof fn law_moving_puts_the_group(x: Img, ag: u32, dest: u64)
    requires
        x.sb.blocksize > 0,
        resize::relocated(x, ag, dest).1 is Ok,
    ensures
        ({
            let bs = x.sb.blocksize;
            let y = resize::relocated(x, ag, dest).0;
            let e = x.m.entries[ag as int];
            let g = y.m.entries[ag as int];
            &&& ag < x.m.entries.len()
            &&& e.flags % 2 == 1
            &&& e.flags / 2 % 2 == 0
            &&& dest % bs as u64 == 0
            &&& dest + e.length * bs <= x.d.bytes.len()
            &&& forall|i: int, j: int|
                0 <= i < x.m.entries.len() && i != ag && 0 <= j < x.m.entries[i].segs.len() ==> {
                    let s = #[trigger] x.m.entries[i].segs[j];
                    s.dev_offset + s.blocks * bs <= dest || dest + e.length * bs <= s.dev_offset
                }
            &&& y.m.entries == x.m.entries.update(ag as int, g)
            &&& g.flags == e.flags
            &&& g.length == e.length
            &&& g.segs.len() == 1
            &&& g.segs[0].ag_block == 0
            &&& g.segs[0].blocks == e.length
            &&& g.segs[0].dev_offset == dest
            &&& y.sb == (Superblock { gen: y.sb.gen, ..x.sb })
        }),
{
    let bs = x.sb.blocksize;
    let gs = x.m.entries;
    let g = gs[ag as int];
    let (d1, r1) = resize::segs_copied(x.d, g.segs, bs, dest, 0);
    let z = Img {
        d: device::dev_sync(d1),
        m: Groups {
            entries: gs.update(ag as int, resize::whole_group(g.flags, g.length, dest)),
            ..x.m
        },
        ..x
    };
    lemma_stored_super(z);
    assert forall|i: int, j: int|
        0 <= i < gs.len() && i != ag && 0 <= j < gs[i].segs.len() implies {
        let s = #[trigger] gs[i].segs[j];
        s.dev_offset + s.blocks * bs <= dest || dest + g.length * bs <= s.dev_offset
    } by {
        assert(!resize::seg_meets(gs[i].segs[j], bs, dest as int, g.length * bs));
    }
}

/// A group that may not be moved stays where it is: one that does not exist,
/// that is not present or that is marked immovable, and any that would not fit
/// its destination. Each is refused with its own error.
#[verifier::rlimit(60)]
#[verifier::spinoff_prover]
pub proof fn law_moving_is_refused(x: Img, ag: u32, dest: u64)
    requires
        x.sb.blocksize > 0,
    ensures
        dest % x.sb.blocksize as u64 != 0 ==> resize::relocated(x, ag, dest) == (
            x,
            Err::<(), FsError>(FsError::Unaligned),
        ),
        dest % x.sb.blocksize as u64 == 0 && ag >= x.m.entries.len() ==> resize::relocated(
            x,
            ag,
            dest,
        ) == (x, Err::<(), FsError>(FsError::NoSuchAg(ag))),
        dest % x.sb.blocksize as u64 == 0 && ag < x.m.entries.len() ==> {
            let e = x.m.entries[ag as int];
            let bs = x.sb.blocksize;
            let got = resize::relocated(x, ag, dest);
            &&& e.flags % 2 == 0 ==> got == (x, Err::<(), FsError>(FsError::NotPresent(ag)))
            &&& e.flags % 4 == 3 ==> got == (x, Err::<(), FsError>(FsError::Immovable(ag)))
            &&& e.flags % 4 == 1 && dest + e.length * bs > x.d.bytes.len() ==> got == (
                x,
                Err::<(), FsError>(FsError::PastEnd),
            )
            &&& e.flags % 4 == 1 && dest + e.length * bs <= x.d.bytes.len() && (exists|
                i: int,
                j: int,
            |
                0 <= i < x.m.entries.len() && i != ag && 0 <= j < x.m.entries[i].segs.len() && dest
                    < (#[trigger] x.m.entries[i].segs[j]).dev_offset + x.m.entries[i].segs[j].blocks
                    * bs && x.m.entries[i].segs[j].dev_offset < dest + e.length * bs) ==> got == (
                x,
                Err::<(), FsError>(FsError::Overlap),
            )
        },
{
    let bs = x.sb.blocksize;
    let gs = x.m.entries;
    if dest % bs as u64 == 0 && ag < gs.len() {
        let e = gs[ag as int];
        if exists|i: int, j: int|
            0 <= i < gs.len() && i != ag && 0 <= j < gs[i].segs.len() && dest < (
            #[trigger] gs[i].segs[j]).dev_offset + gs[i].segs[j].blocks * bs
                && gs[i].segs[j].dev_offset < dest + e.length * bs {
            let (i, j) = choose|i: int, j: int|
                0 <= i < gs.len() && i != ag && 0 <= j < gs[i].segs.len() && dest < (
                #[trigger] gs[i].segs[j]).dev_offset + gs[i].segs[j].blocks * bs
                    && gs[i].segs[j].dev_offset < dest + e.length * bs;
            assert(resize::seg_meets(gs[i].segs[j], bs, dest as int, e.length * bs));
            assert(resize::region_taken(gs, bs, dest as int, e.length * bs, ag as int));
        }
    }
}

/// A copy between two places on a device that can be written succeeds.
proof fn lemma_copied_ok(d: device::Dev, src: u64, dst: int, total: int, done: int, step: int)
    requires
        d.writable,
        d.bytes.len() <= u64::MAX,
        step > 0,
        0 <= done,
        0 <= dst,
        src + total <= d.bytes.len(),
        dst + total <= d.bytes.len(),
    ensures
        resize::copied(d, src, dst, total, done, step).1 is Ok,
        resize::copied(d, src, dst, total, done, step).0.bytes.len() == d.bytes.len(),
        resize::copied(d, src, dst, total, done, step).0.writable,
    decreases total - done,
{
    let n = if step < total - done {
        step
    } else {
        total - done
    };
    if done < total && n > 0 {
        let b = d.bytes.subrange(src + done, src + done + n);
        let (d1, r1) = device::dev_write(d, (dst + done) as u64, b);
        lemma_copied_ok(d1, src, dst, total, done + n, step);
    }
}

proof fn lemma_segs_copied_ok(d: device::Dev, g: Group, bs: u32, dest: u64, k: int)
    requires
        d.writable,
        d.bytes.len() <= u64::MAX,
        bs > 0,
        0 <= k,
        dest + g.length * bs <= d.bytes.len(),
        forall|j: int|
            0 <= j < g.segs.len() ==> (#[trigger] g.segs[j]).ag_block + g.segs[j].blocks <= g.length
                && g.segs[j].dev_offset + g.segs[j].blocks * bs <= d.bytes.len(),
    ensures
        resize::segs_copied(d, g.segs, bs, dest, k).1 is Ok,
        resize::segs_copied(d, g.segs, bs, dest, k).0.bytes.len() == d.bytes.len(),
        resize::segs_copied(d, g.segs, bs, dest, k).0.writable,
    decreases g.segs.len() - k,
{
    if k < g.segs.len() {
        let s = g.segs[k];
        let l = g.length;
        assert(s.ag_block * bs + s.blocks * bs <= l * bs && 0 <= s.ag_block * bs && 0 <= s.blocks
            * bs && 256 * bs > 0) by (nonlinear_arith)
            requires
                s.ag_block + s.blocks <= l,
                s.ag_block >= 0,
                s.blocks >= 0,
                bs > 0,
        ;
        lemma_copied_ok(d, s.dev_offset, dest + s.ag_block * bs, s.blocks * bs, 0, 256 * bs);
        let d1 = resize::copied(
            d,
            s.dev_offset,
            dest + s.ag_block * bs,
            s.blocks * bs,
            0,
            256 * bs,
        ).0;
        lemma_segs_copied_ok(d1, g, bs, dest, k + 1);
    }
}

/// Moving a group succeeds wherever it may be moved: present and not immovable,
/// with its segments on the device, to a place on a block boundary that is on the
/// device and free of all other groups.
#[verifier::rlimit(60)]
#[verifier::spinoff_prover]
pub proof fn law_moving_succeeds(x: Img, ag: u32, dest: u64)
    requires
        x.sb.blocksize > 0,
        x.d.bytes.len() <= u64::MAX,
        ag < x.m.entries.len(),
        ag > 0,
        dest % x.sb.blocksize as u64 == 0,
        ({
            let g = x.m.entries[ag as int];
            let bs = x.sb.blocksize;
            &&& g.flags % 4 == 1
            &&& g.segs.len() >= 1
            &&& dest + g.length * bs <= x.d.bytes.len()
            &&& forall|j: int|
                0 <= j < g.segs.len() ==> (#[trigger] g.segs[j]).ag_block + g.segs[j].blocks
                    <= g.length && g.segs[j].dev_offset + g.segs[j].blocks * bs
                    <= x.d.bytes.len()
            &&& forall|i: int, j: int|
                0 <= i < x.m.entries.len() && i != ag && 0 <= j < x.m.entries[i].segs.len() ==> {
                    let s = #[trigger] x.m.entries[i].segs[j];
                    s.dev_offset + s.blocks * bs <= dest || dest + g.length * bs <= s.dev_offset
                }
        }),
        has_room(x, x.m.entries, x.d.bytes.len() as int),
    ensures
        resize::relocated(x, ag, dest).1 is Ok,
{
    let gs = x.m.entries;
    let g = gs[ag as int];
    let bs = x.sb.blocksize;
    assert(!resize::region_taken(gs, bs, dest as int, g.length * bs, ag as int)) by {
        assert forall|i: int, j: int|
            0 <= i < gs.len() && i != ag && 0 <= j
                < gs[i].segs.len() implies !#[trigger] resize::seg_meets(
            gs[i].segs[j],
            bs,
            dest as int,
            g.length * bs,
        ) by {
            let s = gs[i].segs[j];
            assert(s.dev_offset + s.blocks * bs <= dest || dest + g.length * bs <= s.dev_offset);
        }
    }
    lemma_segs_copied_ok(x.d, g, bs, dest, 0);
    let (d1, r1) = resize::segs_copied(x.d, g.segs, bs, dest, 0);
    let ng = gs.update(ag as int, resize::whole_group(g.flags, g.length, dest));
    let z = Img { d: device::dev_sync(d1), m: Groups { entries: ng, ..x.m }, ..x };
    lemma_size_after(gs, ag as int, resize::whole_group(g.flags, g.length, dest));
    assert(ng[0] == gs[0]);
    lemma_stored_ok(z);
}

/// The map does not grow by an entry that has no more segments than before.
proof fn lemma_size_after(gs: Seq<Group>, k: int, g: Group)
    requires
        0 <= k < gs.len(),
        g.segs.len() <= gs[k].segs.len(),
    ensures
        agmap::groups_size(gs.update(k, g)) <= agmap::groups_size(gs),
    decreases gs.len(),
{
    let ng = gs.update(k, g);
    let t = gs.drop_last();
    if k < t.len() {
        lemma_size_after(t, k, g);
        assert(ng.drop_last() =~= t.update(k, g));
    } else {
        assert(ng.drop_last() =~= t);
    }
}

/// Retiring a group succeeds wherever the group is empty and another than the
/// first, and the superblock counts its blocks.
#[verifier::rlimit(60)]
#[verifier::spinoff_prover]
pub proof fn law_retiring_succeeds(x: Img, ag: u32, h: header::AgHeader)
    requires
        x.d.bytes.len() <= u64::MAX,
        0 < ag < x.m.entries.len(),
        x.m.entries[ag as int].flags % 2 == 1,
        fs::header_of(
            Vol { bytes: x.d.bytes, groups: x.m.entries, bs: x.sb.blocksize },
            Map::empty(),
            ag,
        ) == Ok::<header::AgHeader, FsError>(h),
        h.full_blocks == 0,
        h.free_blocks <= x.sb.free_blocks,
        h.rsvd_blocks <= x.sb.rsvd_blocks,
        has_room(x, x.m.entries, x.d.bytes.len() as int),
    ensures
        resize::retired(x, ag).1 is Ok,
{
    let gs = x.m.entries;
    let e = Group { flags: fmt::AGF_RETIRED, segs: Seq::empty(), ..gs[ag as int] };
    let z = Img {
        sb: Superblock {
            free_blocks: (x.sb.free_blocks - h.free_blocks) as u64,
            rsvd_blocks: (x.sb.rsvd_blocks - h.rsvd_blocks) as u64,
            ..x.sb
        },
        m: Groups { entries: gs.update(ag as int, e), ..x.m },
        ..x
    };
    lemma_size_after(gs, ag as int, e);
    assert(z.m.entries[0] == gs[0]);
    lemma_stored_ok(z);
}

// --- shrinking ----------------------------------------------------------------

proof fn lemma_past(gs: Seq<Group>, bs: u32, limit: int, i: int)
    requires
        0 <= i,
    ensures
        resize::first_past(gs, bs, limit, i) matches Some(k) ==> i <= k < gs.len() && gs[k].flags % 2
            == 1 && exists|j: int|
            0 <= j < gs[k].segs.len() && (#[trigger] gs[k].segs[j]).dev_offset
                + gs[k].segs[j].blocks * bs > limit,
        resize::first_past(gs, bs, limit, i) is None ==> forall|k: int, j: int|
            i <= k < gs.len() && gs[k].flags % 2 == 1 && 0 <= j < gs[k].segs.len() ==> (
            #[trigger] gs[k].segs[j]).dev_offset + gs[k].segs[j].blocks * bs <= limit,
    decreases gs.len() - i,
{
    if i < gs.len() {
        if gs[i].flags % 2 == 1 && resize::reaches_past(gs[i], bs, limit) {
            let j = choose|j: int|
                0 <= j < gs[i].segs.len() && resize::seg_end(#[trigger] gs[i].segs[j], bs) > limit;
            assert(gs[i].segs[j].dev_offset + gs[i].segs[j].blocks * bs > limit);
        } else {
            lemma_past(gs, bs, limit, i + 1);
            assert forall|k: int, j: int|
                resize::first_past(gs, bs, limit, i) is None && i <= k < gs.len() && gs[k].flags % 2
                    == 1 && 0 <= j < gs[k].segs.len() implies (#[trigger] gs[k].segs[j]).dev_offset
                + gs[k].segs[j].blocks * bs <= limit by {
                if k == i {
                    assert(resize::seg_end(gs[i].segs[j], bs) <= limit);
                }
            }
        }
    }
}

/// Moving one group out of the way changes the entry of no other.
#[verifier::rlimit(60)]
#[verifier::spinoff_prover]
proof fn lemma_one_moved(x: Img, ag: u32, limit: u64, i: int)
    requires
        ag < x.m.entries.len(),
        0 <= i < x.m.entries.len(),
        i != ag,
    ensures
        ({
            let y = resize::moved_below(x, ag, limit).0;
            &&& y.m.entries.len() == x.m.entries.len()
            &&& y.m.entries[i] == x.m.entries[i]
            &&& y.sb.blocksize == x.sb.blocksize
        }),
{
    let gs = x.m.entries;
    let v = Vol { bytes: x.d.bytes, groups: gs, bs: x.sb.blocksize };
    if let Ok(h) = fs::header_of(v, Map::empty(), ag) {
        lemma_stored_super(
            Img {
                sb: Superblock {
                    free_blocks: (x.sb.free_blocks - h.free_blocks) as u64,
                    rsvd_blocks: (x.sb.rsvd_blocks - h.rsvd_blocks) as u64,
                    ..x.sb
                },
                m: Groups {
                    entries: gs.update(
                        ag as int,
                        Group { flags: fmt::AGF_RETIRED, segs: Seq::empty(), ..gs[ag as int] },
                    ),
                    ..x.m
                },
                ..x
            },
        );
        if let Some(dest) = resize::gap_in(
            gs,
            x.sb.blocksize,
            gs[ag as int].length * x.sb.blocksize,
            limit as int,
        ) {
            let g = gs[ag as int];
            let (d1, r1) = resize::segs_copied(x.d, g.segs, x.sb.blocksize, dest as u64, 0);
            lemma_stored_super(
                Img {
                    d: device::dev_sync(d1),
                    m: Groups {
                        entries: gs.update(
                            ag as int,
                            resize::whole_group(g.flags, g.length, dest as u64),
                        ),
                        ..x.m
                    },
                    ..x
                },
            );
        }
    }
}

#[verifier::rlimit(60)]
#[verifier::spinoff_prover]
proof fn lemma_rest_stays(x: Img, limit: u64, rounds: int, i: int)
    requires
        x.m.entries.len() <= u32::MAX,
        0 <= i < x.m.entries.len(),
        forall|j: int|
            0 <= j < x.m.entries[i].segs.len() ==> (#[trigger] x.m.entries[i].segs[j]).dev_offset
                + x.m.entries[i].segs[j].blocks * x.sb.blocksize <= limit,
    ensures
        resize::cleared(x, limit, rounds).0.m.entries.len() == x.m.entries.len(),
        resize::cleared(x, limit, rounds).0.m.entries[i] == x.m.entries[i],
    decreases rounds,
{
    let gs = x.m.entries;
    let bs = x.sb.blocksize;
    lemma_past(gs, bs, limit as int, 0);
    if let Some(k) = resize::first_past(gs, bs, limit as int, 0) {
        if rounds > 0 {
            if k == i {
                let j = choose|j: int|
                    0 <= j < gs[k].segs.len() && (#[trigger] gs[k].segs[j]).dev_offset
                        + gs[k].segs[j].blocks * bs > limit;
                assert(gs[i].segs[j].dev_offset + gs[i].segs[j].blocks * bs <= limit);
            }
            lemma_one_moved(x, k as u32, limit, i);
            let (y, r) = resize::moved_below(x, k as u32, limit);
            if r is Ok {
                lemma_rest_stays(y, limit, rounds - 1, i);
            }
        }
    }
}

/// Shrinking leaves every group where it is that lies below the new size.
pub proof fn law_shrinking_leaves_the_rest(x: Img, size: usize, i: int)
    requires
        x.m.entries.len() <= u32::MAX,
        size <= u64::MAX,
        0 <= i < x.m.entries.len(),
        forall|j: int|
            0 <= j < x.m.entries[i].segs.len() ==> (#[trigger] x.m.entries[i].segs[j]).dev_offset
                + x.m.entries[i].segs[j].blocks * x.sb.blocksize <= size,
    ensures
        resize::shrunk(x, size).0.m.entries.len() == x.m.entries.len(),
        resize::shrunk(x, size).0.m.entries[i] == x.m.entries[i],
{
    lemma_rest_stays(x, size as u64, x.m.entries.len() as int, i);
}

/// Where no group reaches past the new size, shrinking cuts the device and
/// nothing else; where the first group does, it is refused and nothing changes.
pub proof fn law_shrinking_cuts_or_refuses(x: Img, size: usize)
    requires
        x.m.entries.len() > 0,
        size <= u64::MAX,
    ensures
        (forall|k: int, j: int|
            0 <= k < x.m.entries.len() && x.m.entries[k].flags % 2 == 1 && 0 <= j
                < x.m.entries[k].segs.len() ==> (#[trigger] x.m.entries[k].segs[j]).dev_offset
                + x.m.entries[k].segs[j].blocks * x.sb.blocksize <= size) ==> {
            let (y, r) = resize::shrunk(x, size);
            &&& r is Ok
            &&& y.sb == x.sb
            &&& y.m == x.m
            &&& y.d.bytes.len() == size
            &&& forall|p: int|
                0 <= p < size ==> #[trigger] y.d.bytes[p] == if p < x.d.bytes.len() {
                    x.d.bytes[p]
                } else {
                    0u8
                }
        },
        x.m.entries[0].flags % 2 == 1 && (exists|j: int|
            0 <= j < x.m.entries[0].segs.len() && (#[trigger] x.m.entries[0].segs[j]).dev_offset
                + x.m.entries[0].segs[j].blocks * x.sb.blocksize > size) ==> resize::shrunk(x, size)
            == (x, Err::<(), FsError>(FsError::ShrinkFirst)),
{
    let gs = x.m.entries;
    let bs = x.sb.blocksize;
    lemma_past(gs, bs, size as int, 0);
    if gs[0].flags % 2 == 1 && (exists|j: int|
        0 <= j < gs[0].segs.len() && (#[trigger] gs[0].segs[j]).dev_offset + gs[0].segs[j].blocks
            * bs > size) {
        let j = choose|j: int|
            0 <= j < gs[0].segs.len() && (#[trigger] gs[0].segs[j]).dev_offset
                + gs[0].segs[j].blocks * bs > size;
        assert(resize::seg_end(gs[0].segs[j], bs) > size);
        assert(resize::reaches_past(gs[0], bs, size as int));
        assert(resize::first_past(gs, bs, size as int, 0) == Some(0int));
    }
}

} // verus!
