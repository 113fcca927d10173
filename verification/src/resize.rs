//! Online resize primitives: grow, wholesale relocation of a group, retiring
//! empty groups, and tail shrink. All of these touch only the AG map and the
//! superblock, never file metadata.

use crate::agmap::{AgEntry, AgSegment, Group, Groups};
use crate::device::Dev;
use crate::error::FsError;
use crate::fmt::{
    cell_get, cell_set, div_up, zero_vec, AGF_IMMOVABLE, AGF_PRESENT, AGF_RETIRED, CELL_BLOCKS,
    CELL_FREE, CELL_RSVD,
};
use crate::fs::{header_buf, Gofs};
use crate::header::{rt_geometry, rt_table_blocks, AgHeader};
use crate::superblock::Superblock;
use vstd::prelude::*;

use crate::agmap;
use crate::device;
use crate::fmt;
use crate::fs;
use crate::header;
use crate::vol;

verus! {

/// A volume: its device, superblock and AG map.
#[verifier::ext_equal]
pub struct Img {
    pub d: Dev,
    pub sb: Superblock,
    pub m: Groups,
}

pub open spec fn img_of(f: Gofs) -> Img {
    Img { d: f.dev@, sb: f.sb, m: f.map@ }
}

// --- regions ------------------------------------------------------------------

/// One past the last byte of a segment.
pub open spec fn seg_end(s: AgSegment, bs: u32) -> int {
    s.dev_offset + s.blocks * bs
}

/// Whether a segment shares a byte with the region.
pub open spec fn seg_meets(s: AgSegment, bs: u32, off: int, len: int) -> bool {
    off < seg_end(s, bs) && s.dev_offset < off + len
}

/// Whether a group other than `skip` has a segment that meets the region.
pub open spec fn region_taken(gs: Seq<Group>, bs: u32, off: int, len: int, skip: int) -> bool {
    exists|i: int, j: int|
        0 <= i < gs.len() && i != skip && 0 <= j < gs[i].segs.len() && #[trigger] seg_meets(
            gs[i].segs[j],
            bs,
            off,
            len,
        )
}

/// The end of the segment that reaches farthest, at least `least`.
pub open spec fn segs_end(segs: Seq<AgSegment>, bs: u32, least: int) -> int
    decreases segs.len(),
{
    if segs.len() == 0 {
        least
    } else {
        let rest = segs_end(segs.drop_last(), bs, least);
        let e = seg_end(segs.last(), bs);
        if e > rest {
            e
        } else {
            rest
        }
    }
}

/// Where the mapped part of the device ends.
pub open spec fn groups_end(gs: Seq<Group>, bs: u32) -> int
    decreases gs.len(),
{
    if gs.len() == 0 {
        0
    } else {
        segs_end(gs.last().segs, bs, groups_end(gs.drop_last(), bs))
    }
}

// --- a new group --------------------------------------------------------------

/// The state array with cells `lo` to `hi` set to `st`.
pub open spec fn cells_filled(b: Seq<u8>, lo: int, hi: int, st: u8) -> Seq<u8>
    decreases hi - lo,
{
    if lo >= hi {
        b
    } else {
        fmt::cell_put(cells_filled(b, lo, hi - 1, st), hi - 1, st)
    }
}

/// The root table of a group of `len` blocks whose first `used` blocks are
/// metadata: the cells that these reach into are reserved, and a partial tail
/// cell is.
pub open spec fn base_table(len: u32, bs: u32, used: int) -> Seq<u8> {
    let cells = header::cell_count(len);
    let t = cells_filled(
        fmt::zeros((header::table_blocks(len, bs) * bs) as nat),
        0,
        fmt::ceil_div(used, 256),
        CELL_RSVD,
    );
    if len % 256 != 0 && fmt::cell_at(t, cells - 1) == CELL_FREE {
        fmt::cell_put(t, cells - 1, CELL_RSVD)
    } else {
        t
    }
}

/// How many cells `base_table` reserves.
pub open spec fn base_reserved(len: u32, bs: u32, used: int) -> int {
    let cells = header::cell_count(len);
    let t = cells_filled(
        fmt::zeros((header::table_blocks(len, bs) * bs) as nat),
        0,
        fmt::ceil_div(used, 256),
        CELL_RSVD,
    );
    fmt::ceil_div(used, 256) + if len % 256 != 0 && fmt::cell_at(t, cells - 1) == CELL_FREE {
        1int
    } else {
        0
    }
}

/// Free blocks of a new group that holds nothing but its metadata.
pub open spec fn new_free(len: u32, bs: u32) -> int {
    (header::cell_count(len) - base_reserved(len, bs, 1 + header::table_blocks(len, bs))) * 256
}

/// The header of a new group.
pub open spec fn new_header(ag: u32, len: u32, bs: u32) -> AgHeader {
    let used = 1 + header::table_blocks(len, bs);
    let free = new_free(len, bs);
    AgHeader {
        ag_num: ag,
        gen: 1,
        length: len,
        free_blocks: free as u32,
        rsvd_blocks: (len - free) as u32,
        full_blocks: 0,
        alloc_root: 1,
        ino_hint: 0,
        data_hint: (fmt::ceil_div(used, 256) * 256) as u32,
        tbl_arena: 0,
    }
}

/// The map entry of a group in one piece.
pub open spec fn whole_group(flags: u16, len: u32, off: u64) -> Group {
    Group { flags, length: len, segs: seq![AgSegment { ag_block: 0, blocks: len, dev_offset: off }] }
}

/// Storing AG map and superblock, with a barrier behind.
pub open spec fn map_stored(x: Img) -> (Img, Result<(), FsError>) {
    let (d1, m1, r1) = fs::map_write(x.d, x.sb, x.m);
    if r1 is Err {
        (Img { d: d1, m: m1, ..x }, r1)
    } else {
        let (d2, sb2, r2) = fs::sb_write(d1, x.sb, m1.entries);
        if r2 is Err {
            (Img { d: d2, sb: sb2, m: m1 }, r2)
        } else {
            (Img { d: device::dev_sync(d2), sb: sb2, m: m1 }, Ok(()))
        }
    }
}

/// Adding a group on the region of `bytes` bytes at `off`. Its body is written
/// first: nothing reaches it until the map is stored.
pub open spec fn group_added(x: Img, off: u64, bytes: u64) -> (Img, Result<u32, FsError>) {
    let bs = x.sb.blocksize;
    let len = (bytes as int / bs as int % 0x1_0000_0000) as u32;
    let ag = x.sb.next_ag;
    let free = new_free(len, bs);
    if off % bs as u64 != 0 {
        (x, Err(FsError::Unaligned))
    } else if len < 1024 {
        (x, Err(FsError::AgTooSmall(len)))
    } else if region_taken(x.m.entries, bs, off as int, bytes as int, -1) {
        (x, Err(FsError::Overlap))
    } else if ag == u32::MAX || x.sb.free_blocks + free > u64::MAX || x.sb.rsvd_blocks + (len
        - free) > u64::MAX || off + bs > u64::MAX {
        (x, Err(FsError::Corrupt))
    } else {
        let (d1, r1) = device::dev_writes(
            x.d,
            seq![
                (Ok::<u64, FsError>(off), fs::header_block(new_header(ag, len, bs), bs)),
                (
                    Ok::<u64, FsError>((off + bs) as u64),
                    base_table(len, bs, 1 + header::table_blocks(len, bs)),
                ),
            ],
        );
        match r1 {
            Err(e) => (Img { d: d1, ..x }, Err(e)),
            Ok(_) => {
                let (y, r2) = map_stored(
                    Img {
                        d: device::dev_sync(d1),
                        sb: Superblock {
                            next_ag: (ag + 1) as u32,
                            free_blocks: (x.sb.free_blocks + free) as u64,
                            rsvd_blocks: (x.sb.rsvd_blocks + (len - free)) as u64,
                            ..x.sb
                        },
                        m: Groups {
                            entries: x.m.entries.push(whole_group(AGF_PRESENT, len, off)),
                            ..x.m
                        },
                    },
                );
                match r2 {
                    Err(e) => (y, Err(e)),
                    Ok(_) => (y, Ok(ag)),
                }
            },
        }
    }
}

/// Growing to `size` bytes: a new group from the end of the mapped part on.
pub open spec fn grown(x: Img, size: usize) -> (Img, Result<u32, FsError>) {
    let end = groups_end(x.m.entries, x.sb.blocksize);
    if size <= end {
        (
            x,
            Err(
                FsError::NotPastEnd {
                    size: size as u64,
                    end: if end <= u64::MAX {
                        end as u64
                    } else {
                        u64::MAX
                    },
                },
            ),
        )
    } else {
        let d1 = if size > x.d.bytes.len() {
            Dev {
                bytes: device::applied(x.d.bytes, device::Io::SetLen(size as u64)),
                log: x.d.log.push(device::Io::SetLen(size as u64)),
                ..x.d
            }
        } else {
            x.d
        };
        group_added(Img { d: d1, ..x }, end as u64, (size - end) as u64)
    }
}

// --- relocation ---------------------------------------------------------------

/// Copying `total` bytes from `src` to `dst`, from byte `done` on, `step` bytes
/// at a time.
pub open spec fn copied(d: Dev, src: u64, dst: int, total: int, done: int, step: int) -> (
    Dev,
    Result<(), FsError>,
)
    decreases total - done,
{
    let n = if step < total - done {
        step
    } else {
        total - done
    };
    if done >= total || n <= 0 {
        (d, Ok(()))
    } else if src + done > u64::MAX || dst + done > u64::MAX {
        (d, Err(FsError::Corrupt))
    } else {
        match device::dev_read(d.bytes, (src + done) as u64, n) {
            Err(e) => (d, Err(e)),
            Ok(b) => {
                let (d1, r1) = device::dev_write(d, (dst + done) as u64, b);
                match r1 {
                    Err(e) => (d1, Err(e)),
                    Ok(_) => copied(d1, src, dst, total, done + n, step),
                }
            },
        }
    }
}

/// Copying the segments from `k` on to their places in the new home at `dest`.
pub open spec fn segs_copied(d: Dev, segs: Seq<AgSegment>, bs: u32, dest: u64, k: int) -> (
    Dev,
    Result<(), FsError>,
)
    decreases segs.len() - k,
{
    if k >= segs.len() {
        (d, Ok(()))
    } else {
        let s = segs[k];
        let (d1, r1) = copied(
            d,
            s.dev_offset,
            dest + s.ag_block * bs,
            s.blocks * bs,
            0,
            256 * bs,
        );
        match r1 {
            Err(e) => (d1, Err(e)),
            Ok(_) => segs_copied(d1, segs, bs, dest, k + 1),
        }
    }
}

/// Moving group `ag` to `dest` in one piece. Only the AG map changes; every
/// block address and inode number stays valid.
pub open spec fn relocated(x: Img, ag: u32, dest: u64) -> (Img, Result<(), FsError>) {
    let bs = x.sb.blocksize;
    let gs = x.m.entries;
    if dest % bs as u64 != 0 {
        (x, Err(FsError::Unaligned))
    } else if ag >= gs.len() {
        (x, Err(FsError::NoSuchAg(ag)))
    } else if !agmap::is_present(gs[ag as int].flags) {
        (x, Err(FsError::NotPresent(ag)))
    } else if gs[ag as int].flags / 2 % 2 == 1 {
        (x, Err(FsError::Immovable(ag)))
    } else if dest + gs[ag as int].length * bs > x.d.bytes.len() {
        (x, Err(FsError::PastEnd))
    } else if region_taken(gs, bs, dest as int, gs[ag as int].length * bs, ag as int) {
        (x, Err(FsError::Overlap))
    } else {
        let g = gs[ag as int];
        let (d1, r1) = segs_copied(x.d, g.segs, bs, dest, 0);
        if r1 is Err {
            (Img { d: d1, ..x }, r1)
        } else {
            map_stored(
                Img {
                    d: device::dev_sync(d1),
                    m: Groups {
                        entries: gs.update(ag as int, whole_group(g.flags, g.length, dest)),
                        ..x.m
                    },
                    ..x
                },
            )
        }
    }
}

// --- retiring and shrinking ---------------------------------------------------

/// Retiring an empty group: its id is never used again, its space is released.
pub open spec fn retired(x: Img, ag: u32) -> (Img, Result<(), FsError>) {
    let gs = x.m.entries;
    let v = vol::Vol { bytes: x.d.bytes, groups: gs, bs: x.sb.blocksize };
    if ag == 0 {
        (x, Err(FsError::RetireFirst))
    } else {
        match fs::header_of(v, Map::empty(), ag) {
            Err(e) => (x, Err(e)),
            Ok(h) => if h.full_blocks != 0 {
                (x, Err(FsError::StillAllocated { ag, blocks: h.full_blocks }))
            } else if ag >= gs.len() || !agmap::is_present(gs[ag as int].flags) {
                (x, Err(FsError::NotPresent(ag)))
            } else if x.sb.free_blocks < h.free_blocks || x.sb.rsvd_blocks < h.rsvd_blocks {
                (x, Err(FsError::Corrupt))
            } else {
                map_stored(
                    Img {
                        sb: Superblock {
                            free_blocks: (x.sb.free_blocks - h.free_blocks) as u64,
                            rsvd_blocks: (x.sb.rsvd_blocks - h.rsvd_blocks) as u64,
                            ..x.sb
                        },
                        m: Groups {
                            entries: gs.update(
                                ag as int,
                                Group {
                                    flags: AGF_RETIRED,
                                    segs: Seq::empty(),
                                    ..gs[ag as int]
                                },
                            ),
                            ..x.m
                        },
                        ..x
                    },
                )
            },
        }
    }
}

/// Whether a group has a segment that ends past `limit`.
pub open spec fn reaches_past(g: Group, bs: u32, limit: int) -> bool {
    exists|j: int| 0 <= j < g.segs.len() && seg_end(#[trigger] g.segs[j], bs) > limit
}

/// The first present group from `i` on that reaches past `limit`.
pub open spec fn first_past(gs: Seq<Group>, bs: u32, limit: int, i: int) -> Option<int>
    decreases gs.len() - i,
{
    if i >= gs.len() {
        None
    } else if agmap::is_present(gs[i].flags) && reaches_past(gs[i], bs, limit) {
        Some(i)
    } else {
        first_past(gs, bs, limit, i + 1)
    }
}

/// The byte ranges of the segments.
pub open spec fn segs_spans(segs: Seq<AgSegment>, bs: u32) -> Seq<(int, int)> {
    segs.map_values(|s: AgSegment| (s.dev_offset as int, seg_end(s, bs)))
}

/// The byte ranges of all segments.
pub open spec fn spans(gs: Seq<Group>, bs: u32) -> Seq<(int, int)>
    decreases gs.len(),
{
    if gs.len() == 0 {
        Seq::empty()
    } else {
        spans(gs.drop_last(), bs) + segs_spans(gs.last().segs, bs)
    }
}

/// The order of ranges: by start, then by end.
pub open spec fn span_le(a: (int, int), b: (int, int)) -> bool {
    a.0 < b.0 || (a.0 == b.0 && a.1 <= b.1)
}

/// `x` put among ranges in order.
pub open spec fn put_span(s: Seq<(int, int)>, x: (int, int)) -> Seq<(int, int)>
    decreases s.len(),
{
    if s.len() == 0 || span_le(s.last(), x) {
        s.push(x)
    } else {
        put_span(s.drop_last(), x).push(s.last())
    }
}

/// The ranges in order.
pub open spec fn spans_sorted(s: Seq<(int, int)>) -> Seq<(int, int)>
    decreases s.len(),
{
    if s.len() == 0 {
        s
    } else {
        put_span(spans_sorted(s.drop_last()), s.last())
    }
}

/// The first gap of `bytes` bytes below `limit` among ranges in order, from
/// range `k` on; everything before `cursor` is taken or too small.
pub open spec fn gap_from(s: Seq<(int, int)>, bytes: int, limit: int, k: int, cursor: int) -> Option<
    int,
>
    decreases s.len() - k,
{
    if k >= s.len() {
        if cursor <= limit && limit - cursor >= bytes || cursor > limit && bytes <= 0 {
            Some(cursor)
        } else {
            None
        }
    } else {
        let top = if s[k].0 < limit {
            s[k].0
        } else {
            limit
        };
        let room = if top > cursor {
            top - cursor
        } else {
            0
        };
        if s[k].0 > cursor && room >= bytes {
            Some(cursor)
        } else {
            gap_from(
                s,
                bytes,
                limit,
                k + 1,
                if cursor < s[k].1 {
                    s[k].1
                } else {
                    cursor
                },
            )
        }
    }
}

/// A gap of `bytes` bytes among the segments, that ends at or before `limit`.
pub open spec fn gap_in(gs: Seq<Group>, bs: u32, bytes: int, limit: int) -> Option<int> {
    gap_from(spans_sorted(spans(gs, bs)), bytes, limit, 0, 0)
}

/// Moving out of the way group `i`, which reaches past `limit`: an empty one is
/// retired, another moves to a gap below.
pub open spec fn moved_below(x: Img, ag: u32, limit: u64) -> (Img, Result<(), FsError>) {
    let bs = x.sb.blocksize;
    let gs = x.m.entries;
    let v = vol::Vol { bytes: x.d.bytes, groups: gs, bs };
    if ag == 0 {
        (x, Err(FsError::ShrinkFirst))
    } else {
        match fs::header_of(v, Map::empty(), ag) {
            Err(e) => (x, Err(e)),
            Ok(h) => if h.full_blocks == 0 {
                retired(x, ag)
            } else {
                match gap_in(gs, bs, gs[ag as int].length * bs, limit as int) {
                    None => (x, Err(FsError::NoGap { ag, limit })),
                    Some(dest) => if dest > u64::MAX {
                        (x, Err(FsError::NoGap { ag, limit }))
                    } else {
                        relocated(x, ag, dest as u64)
                    },
                }
            },
        }
    }
}

/// Moving groups below `limit` until none reaches past it, in at most `rounds`
/// moves.
pub open spec fn cleared(x: Img, limit: u64, rounds: int) -> (Img, Result<(), FsError>)
    decreases rounds,
{
    match first_past(x.m.entries, x.sb.blocksize, limit as int, 0) {
        None => (x, Ok(())),
        Some(i) => if rounds <= 0 {
            (x, Err(FsError::Corrupt))
        } else {
            let (y, r) = moved_below(x, i as u32, limit);
            match r {
                Err(e) => (y, Err(e)),
                Ok(_) => cleared(y, limit, rounds - 1),
            }
        },
    }
}

/// Shrinking to `size` bytes.
pub open spec fn shrunk(x: Img, size: usize) -> (Img, Result<(), FsError>) {
    let (y, r) = cleared(x, size as u64, x.m.entries.len() as int);
    match r {
        Err(e) => (y, Err(e)),
        Ok(_) => (
            Img {
                d: Dev {
                    bytes: device::applied(y.d.bytes, device::Io::SetLen(size as u64)),
                    log: y.d.log.push(device::Io::SetLen(size as u64)),
                    ..y.d
                },
                ..y
            },
            Ok(()),
        ),
    }
}

// --- code ---------------------------------------------------------------------

fn end_of_seg(s: &AgSegment, bs: u32) -> (r: u128)
    ensures
        r == seg_end(*s, bs),
        r <= 0x2_0000_0000_0000_0000,
{
    let n = s.blocks;
    assert(n * bs <= 0xffff_ffff * 0xffff_ffff) by (nonlinear_arith)
        requires
            0 <= n <= 0xffff_ffff,
            0 <= bs <= 0xffff_ffff,
    ;
    s.dev_offset as u128 + n as u128 * bs as u128
}

/// Set the states of cells `lo` to `hi`.
pub fn fill_cells(b: &mut Vec<u8>, lo: u64, hi: u64, st: u8)
    requires
        lo <= hi,
        hi <= 0x100_0000,
        (hi + 3) / 4 <= old(b)@.len(),
        st < 4,
    ensures
        final(b)@ == cells_filled(old(b)@, lo as int, hi as int, st),
        final(b)@.len() == old(b)@.len(),
{
    let mut c = lo;
    while c < hi
        invariant
            lo <= c <= hi,
            hi <= 0x100_0000,
            b@.len() == old(b)@.len(),
            (hi + 3) / 4 <= b@.len(),
            st < 4,
            b@ == cells_filled(old(b)@, lo as int, c as int, st),
        decreases hi - c,
    {
        cell_set(b, c, st);
        c = c + 1;
    }
}

/// The table of a group is small next to the group.
pub proof fn lemma_table_small(len: u32, bs: u32)
    requires
        len > 0,
        bs >= 512,
    ensures
        1 <= header::table_blocks(len, bs) <= header::cell_count(len),
        header::table_blocks(len, bs) * bs >= header::state_bytes(header::cell_count(len)) + 6
            * header::cell_count(len),
        header::table_blocks(len, bs) * bs <= 7 * header::cell_count(len) + bs,
        1 <= header::cell_count(len) <= 0x100_0000,
        (header::cell_count(len) - 1) * 256 < len <= header::cell_count(len) * 256,
        len % 256 == 0 ==> header::cell_count(len) * 256 == len,
        header::state_bytes(header::cell_count(len)) == (header::cell_count(len) + 3) / 4,
{
    let cells = header::cell_count(len);
    fmt::lemma_ceil_div(len as int, 256);
    fmt::lemma_ceil_div(cells, 4);
    let n = header::state_bytes(cells) + 6 * cells;
    fmt::lemma_ceil_div(n, bs as int);
    let tb = header::table_blocks(len, bs);
    assert(n <= 7 * cells + 1);
    assert(tb <= cells) by (nonlinear_arith)
        requires
            (tb - 1) * bs < n,
            n <= 7 * cells + 1,
            cells >= 1,
            bs >= 512,
    ;
    assert(tb >= 1) by (nonlinear_arith)
        requires
            tb * bs >= n,
            n >= 1,
            bs >= 512,
    ;
    assert(tb * bs <= 7 * cells + bs) by (nonlinear_arith)
        requires
            (tb - 1) * bs < n,
            n <= 7 * cells + 1,
    ;
}

/// Setting cells does not change the length of the array, nor cells elsewhere.
pub proof fn lemma_cells_filled(b: Seq<u8>, lo: int, hi: int, st: u8, c: int)
    requires
        0 <= lo <= hi,
        (hi + 3) / 4 <= b.len(),
        0 <= c,
        c / 4 < b.len(),
        st < 4,
    ensures
        cells_filled(b, lo, hi, st).len() == b.len(),
        fmt::cell_at(cells_filled(b, lo, hi, st), c) == if lo <= c < hi {
            st
        } else {
            fmt::cell_at(b, c)
        },
    decreases hi - lo,
{
    if lo < hi {
        lemma_cells_filled(b, lo, hi - 1, st, c);
        fmt::law_cell_put(cells_filled(b, lo, hi - 1, st), hi - 1, c, st);
    }
}

/// A fresh root table, and how many cells it reserves.
pub fn build_table(len: u32, bs: u32, used: u64) -> (r: (Vec<u8>, u64))
    requires
        len > 0,
        bs >= 512,
        bs <= 0x8000_0000,
        0 < used <= len,
    ensures
        r.0@ == base_table(len, bs, used as int),
        r.0@.len() == header::table_blocks(len, bs) * bs,
        r.1 == base_reserved(len, bs, used as int),
        fmt::ceil_div(used as int, 256) <= r.1 <= header::cell_count(len),
        len % 256 != 0 ==> r.1 >= 1 && (header::cell_count(len) - r.1) * 256 + 256 <= header::cell_count(
            len,
        ) * 256,
        r.1 <= fmt::ceil_div(used as int, 256) + 1,
        fmt::ceil_div(used as int, 256) < header::cell_count(len) && len % 256 != 0 ==> r.1
            == fmt::ceil_div(used as int, 256) + 1,
        len % 256 == 0 ==> r.1 == fmt::ceil_div(used as int, 256),
{
    proof {
        lemma_table_small(len, bs);
        fmt::lemma_ceil_div(used as int, 256);
    }
    let (cells, _) = rt_geometry(len, bs);
    let tb = rt_table_blocks(len, bs);
    let size = tb as u64 * bs as u64;
    let mut table = zero_vec(size as usize);
    let ghost z = table@;
    assert(z =~= fmt::zeros(size as nat));
    let head = div_up(used, CELL_BLOCKS as u64);
    assert(head <= cells) by {
        fmt::lemma_ceil_div(len as int, 256);
    }
    fill_cells(&mut table, 0, head, CELL_RSVD);
    let mut reserved = head;
    proof {
        lemma_cells_filled(z, 0, head as int, CELL_RSVD, cells - 1);
        assert(fmt::cell_at(z, cells - 1) == CELL_FREE) by {
            assert(z[(cells - 1) / 4] == 0);
        }
    }
    if len % CELL_BLOCKS != 0 && cell_get(&table, cells - 1) == CELL_FREE {
        cell_set(&mut table, cells - 1, CELL_RSVD);
        reserved = reserved + 1;
    }
    (table, reserved)
}

impl Gofs {
    /// Store AG map and superblock, with a barrier behind.
    fn store_map(&mut self) -> (r: Result<(), FsError>)
        requires
            old(self).wf(),
        ensures
            final(self).wf(),
            (img_of(*final(self)), r) == map_stored(img_of(*old(self))),
    {
        self.write_agmap()?;
        self.write_superblock()?;
        self.dev.sync();
        Ok(())
    }

    /// Where the mapped part of the device ends.
    fn mapped_end(&self) -> (r: u128)
        ensures
            r == groups_end(self.map@.entries, self.sb.blocksize),
    {
        let bs = self.sb.blocksize;
        let ghost gs = self.map@.entries;
        let mut end: u128 = 0;
        let mut i: usize = 0;
        assert(gs.take(0) =~= Seq::<Group>::empty());
        while i < self.map.entries.len()
            invariant
                i <= self.map.entries@.len() == gs.len(),
                gs == self.map@.entries,
                bs == self.sb.blocksize,
                end == groups_end(gs.take(i as int), bs),
            decreases self.map.entries@.len() - i,
        {
            let segs = &self.map.entries[i].segs;
            let ghost before = end as int;
            let mut j: usize = 0;
            assert(segs@.take(0) =~= Seq::<AgSegment>::empty());
            while j < segs.len()
                invariant
                    j <= segs@.len(),
                    end == segs_end(segs@.take(j as int), bs, before),
                decreases segs@.len() - j,
            {
                let e = end_of_seg(&segs[j], bs);
                assert(segs@.take(j + 1).drop_last() =~= segs@.take(j as int));
                if e > end {
                    end = e;
                }
                j = j + 1;
            }
            proof {
                assert(segs@.take(segs@.len() as int) =~= segs@);
                assert(gs[i as int] == self.map.entries@[i as int]@);
                assert(gs.take(i + 1).drop_last() =~= gs.take(i as int));
            }
            i = i + 1;
        }
        assert(gs.take(gs.len() as int) =~= gs);
        end
    }

    /// Whether a group other than `skip` has a segment that meets the region.
    fn overlaps_excluding(&self, off: u64, len: u64, skip: Option<u32>) -> (r: bool)
        ensures
            r == region_taken(
                self.map@.entries,
                self.sb.blocksize,
                off as int,
                len as int,
                match skip {
                    Some(a) => a as int,
                    None => -1,
                },
            ),
    {
        let bs = self.sb.blocksize;
        let ghost gs = self.map@.entries;
        let ghost sk = match skip {
            Some(a) => a as int,
            None => -1,
        };
        let end = off as u128 + len as u128;
        let mut i: usize = 0;
        while i < self.map.entries.len()
            invariant
                i <= self.map.entries@.len() == gs.len(),
                gs == self.map@.entries,
                bs == self.sb.blocksize,
                end == off + len,
                sk == match skip {
                    Some(a) => a as int,
                    None => -1,
                },
                forall|a: int, b: int|
                    0 <= a < i && a != sk && 0 <= b < gs[a].segs.len() ==> !(#[trigger] seg_meets(
                        gs[a].segs[b],
                        bs,
                        off as int,
                        len as int,
                    )),
            decreases self.map.entries@.len() - i,
        {
            let skipped = match skip {
                Some(a) => a as usize == i,
                None => false,
            };
            if !skipped {
                let segs = &self.map.entries[i].segs;
                assert(gs[i as int] == self.map.entries@[i as int]@);
                let mut j: usize = 0;
                while j < segs.len()
                    invariant
                        j <= segs@.len(),
                        i < gs.len(),
                        gs[i as int].segs == segs@,
                        i != sk,
                        end == off + len,
                        gs == self.map@.entries,
                        bs == self.sb.blocksize,
                        sk == match skip {
                            Some(a) => a as int,
                            None => -1,
                        },
                        forall|b: int|
                            0 <= b < j ==> !(#[trigger] seg_meets(
                                gs[i as int].segs[b],
                                bs,
                                off as int,
                                len as int,
                            )),
                    decreases segs@.len() - j,
                {
                    let s = segs[j];
                    if (off as u128) < end_of_seg(&s, bs) && (s.dev_offset as u128) < end {
                        assert(seg_meets(gs[i as int].segs[j as int], bs, off as int, len as int));
                        return true;
                    }
                    j = j + 1;
                }
            }
            i = i + 1;
        }
        false
    }

    /// Add a group covering `[dev_offset, dev_offset + bytes)`. The region must
    /// be unmapped. Returns the new group's id.
    #[verifier::rlimit(40)]
    pub fn add_ag(&mut self, dev_offset: u64, bytes: u64) -> (r: Result<u32, FsError>)
        requires
            old(self).wf(),
        ensures
            final(self).wf(),
            (img_of(*final(self)), r) == group_added(img_of(*old(self)), dev_offset, bytes),
    {
        let bs = self.sb.blocksize;
        proof {
            crate::superblock::lemma_blocksize_bound(bs);
        }
        if dev_offset % bs as u64 != 0 {
            return Err(FsError::Unaligned);
        }
        let len = (bytes / bs as u64 % 0x1_0000_0000) as u32;
        if len < 1024 {
            return Err(FsError::AgTooSmall(len));
        }
        if self.overlaps_excluding(dev_offset, bytes, None) {
            return Err(FsError::Overlap);
        }
        let ag = self.sb.next_ag;
        let (cells, _) = rt_geometry(len, bs);
        proof {
            lemma_table_small(len, bs);
        }
        let used = 1 + rt_table_blocks(len, bs) as u64;
        proof {
            fmt::lemma_ceil_div(used as int, 256);
        }
        let (table, reserved) = build_table(len, bs, used);
        let free = (cells - reserved) * CELL_BLOCKS as u64;
        assert(free <= len);
        let rsvd = len as u64 - free;
        if ag == u32::MAX || u64::MAX - self.sb.free_blocks < free || u64::MAX - self.sb.rsvd_blocks
            < rsvd || dev_offset > u64::MAX - bs as u64 {
            return Err(FsError::Corrupt);
        }
        let head = div_up(used, CELL_BLOCKS as u64);
        let hdr = AgHeader {
            ag_num: ag,
            gen: 1,
            length: len,
            free_blocks: free as u32,
            rsvd_blocks: rsvd as u32,
            full_blocks: 0,
            alloc_root: 1,
            ino_hint: 0,
            data_hint: (head * CELL_BLOCKS as u64) as u32,
            tbl_arena: 0,
        };
        assert(hdr == new_header(ag, len, bs));
        // write the body directly: it is unreachable until the map is stored
        let hdrblk = header_buf(&hdr, self.sb.blocksize);
        let ghost items = seq![
            (Ok::<u64, FsError>(dev_offset), hdrblk@),
            (Ok::<u64, FsError>((dev_offset + bs) as u64), table@),
        ];
        proof {
            reveal_with_fuel(device::dev_writes, 3);
            assert(items.skip(1) =~= seq![items[1]]);
            assert(items.skip(1).skip(1) =~= Seq::empty());
        }
        self.dev.pwrite(&hdrblk, dev_offset)?;
        self.dev.pwrite(&table, dev_offset + bs as u64)?;
        self.dev.sync();

        let mut segs: Vec<AgSegment> = Vec::new();
        segs.push(AgSegment { ag_block: 0, blocks: len, dev_offset });
        let e = AgEntry { flags: AGF_PRESENT, length: len, segs };
        let ghost before = self.map@;
        self.map.entries.push(e);
        proof {
            assert(e@ =~= whole_group(AGF_PRESENT, len, dev_offset));
            assert(self.map@.entries =~= before.entries.push(e@));
        }
        self.sb.next_ag = ag + 1;
        self.sb.free_blocks = self.sb.free_blocks + free;
        self.sb.rsvd_blocks = self.sb.rsvd_blocks + rsvd;
        self.store_map()?;
        Ok(ag)
    }

    /// Grow the volume (and the device, where it is shorter) to `new_size`
    /// bytes.
    pub fn grow(&mut self, new_size: usize) -> (r: Result<u32, FsError>)
        requires
            old(self).wf(),
        ensures
            final(self).wf(),
            (img_of(*final(self)), r) == grown(img_of(*old(self)), new_size),
    {
        let end = self.mapped_end();
        if new_size as u128 <= end {
            let shown = if end <= u64::MAX as u128 { end as u64 } else { u64::MAX };
            return Err(FsError::NotPastEnd { size: new_size as u64, end: shown });
        }
        if new_size as u64 > self.dev.size {
            self.dev.set_len(new_size);
        }
        self.add_ag(end as u64, (new_size as u128 - end) as u64)
    }
}

impl Gofs {
    /// Copy `total` bytes from `src` to `dst`, `step` at a time.
    fn copy_bytes(&mut self, src: u64, dst: u128, total: u64, step: u64) -> (r: Result<(), FsError>)
        requires
            old(self).wf(),
            step > 0,
            dst <= 0x2_0000_0000_0000_0000,
        ensures
            final(self).wf(),
            final(self).sb == old(self).sb,
            final(self).map == old(self).map,
            (final(self).dev@, r) == copied(
                old(self).dev@,
                src,
                dst as int,
                total as int,
                0,
                step as int,
            ),
    {
        let mut done: u64 = 0;
        while done < total
            invariant
                done <= total,
                step > 0,
                dst <= 0x2_0000_0000_0000_0000,
                self.wf(),
                self.sb == old(self).sb,
                self.map == old(self).map,
                copied(old(self).dev@, src, dst as int, total as int, 0, step as int) == copied(
                    self.dev@,
                    src,
                    dst as int,
                    total as int,
                    done as int,
                    step as int,
                ),
            decreases total - done,
        {
            let n = if step < total - done { step } else { total - done };
            if src > u64::MAX - done || dst + done as u128 > u64::MAX as u128 {
                return Err(FsError::Corrupt);
            }
            let buf = self.dev.read_vec(src + done, n)?;
            self.dev.pwrite(&buf, (dst + done as u128) as u64)?;
            done = done + n;
        }
        Ok(())
    }

    /// Copy segments to their places in the new home at `dest`.
    fn copy_segs(&mut self, segs: &Vec<AgSegment>, dest: u64) -> (r: Result<(), FsError>)
        requires
            old(self).wf(),
        ensures
            final(self).wf(),
            final(self).sb == old(self).sb,
            final(self).map == old(self).map,
            (final(self).dev@, r) == segs_copied(
                old(self).dev@,
                segs@,
                old(self).sb.blocksize,
                dest,
                0,
            ),
    {
        let bs = self.sb.blocksize;
        let mut k: usize = 0;
        while k < segs.len()
            invariant
                k <= segs@.len(),
                self.wf(),
                bs == self.sb.blocksize,
                self.sb == old(self).sb,
                self.map == old(self).map,
                segs_copied(old(self).dev@, segs@, bs, dest, 0) == segs_copied(
                    self.dev@,
                    segs@,
                    bs,
                    dest,
                    k as int,
                ),
            decreases segs@.len() - k,
        {
            let s = segs[k];
            let a = s.ag_block;
            let n = s.blocks;
            assert(a * bs <= 0xffff_ffff * 0xffff_ffff && n * bs <= 0xffff_ffff * 0xffff_ffff)
                by (nonlinear_arith)
                requires
                    0 <= a <= 0xffff_ffff,
                    0 <= n <= 0xffff_ffff,
                    0 <= bs <= 0xffff_ffff,
            ;
            let to = dest as u128 + a as u128 * bs as u128;
            self.copy_bytes(
                s.dev_offset,
                to,
                n as u64 * bs as u64,
                CELL_BLOCKS as u64 * bs as u64,
            )?;
            k = k + 1;
        }
        Ok(())
    }

    /// Move an entire group to `dest` (unmapped, sized region). Only the AG map
    /// changes; every block address and inode number stays valid.
    #[verifier::rlimit(30)]
    pub fn relocate(&mut self, ag: u32, dest: u64) -> (r: Result<(), FsError>)
        requires
            old(self).wf(),
        ensures
            final(self).wf(),
            (img_of(*final(self)), r) == relocated(img_of(*old(self)), ag, dest),
    {
        let bs = self.sb.blocksize;
        if dest % bs as u64 != 0 {
            return Err(FsError::Unaligned);
        }
        let i = ag as usize;
        if i >= self.map.entries.len() {
            return Err(FsError::NoSuchAg(ag));
        }
        let ghost gs = self.map@.entries;
        let flags = self.map.entries[i].flags;
        let length = self.map.entries[i].length;
        proof {
            assert(gs[i as int] == self.map.entries@[i as int]@);
            agmap::lemma_present_bit(flags);
            assert((flags & 2 != 0) == (flags / 2 % 2 == 1)) by (bit_vector);
        }
        if flags & AGF_PRESENT == 0 {
            return Err(FsError::NotPresent(ag));
        }
        if flags & AGF_IMMOVABLE != 0 {
            return Err(FsError::Immovable(ag));
        }
        assert(length * bs <= 0xffff_ffff * 0xffff_ffff) by (nonlinear_arith)
            requires
                0 <= length <= 0xffff_ffff,
                0 <= bs <= 0xffff_ffff,
        ;
        let bytes = length as u64 * bs as u64;
        if dest as u128 + bytes as u128 > self.dev.size as u128 {
            return Err(FsError::PastEnd);
        }
        if self.overlaps_excluding(dest, bytes, Some(ag)) {
            return Err(FsError::Overlap);
        }
        // copy each segment's data to its place in the new contiguous home
        let segs = copy_of(&self.map.entries[i].segs);
        self.copy_segs(&segs, dest)?;
        self.dev.sync();
        let mut home: Vec<AgSegment> = Vec::new();
        home.push(AgSegment { ag_block: 0, blocks: length, dev_offset: dest });
        let ghost before = self.map@;
        let e = AgEntry { flags, length, segs: home };
        self.map.entries.set(i, e);
        proof {
            assert(e@ =~= whole_group(flags, length, dest));
            assert(self.map@.entries =~= before.entries.update(i as int, e@));
        }
        self.store_map()
    }

    /// Retire an empty group: its id is never reused, its space is released.
    pub fn retire(&mut self, ag: u32) -> (r: Result<(), FsError>)
        requires
            old(self).wf(),
        ensures
            final(self).wf(),
            (img_of(*final(self)), r) == retired(img_of(*old(self)), ag),
    {
        if ag == 0 {
            return Err(FsError::RetireFirst);
        }
        let hdr = self.read_ag_header(ag)?;
        if hdr.full_blocks != 0 {
            return Err(FsError::StillAllocated { ag, blocks: hdr.full_blocks });
        }
        let i = ag as usize;
        if i >= self.map.entries.len() {
            return Err(FsError::NotPresent(ag));
        }
        let ghost gs = self.map@.entries;
        let flags = self.map.entries[i].flags;
        let length = self.map.entries[i].length;
        proof {
            assert(gs[i as int] == self.map.entries@[i as int]@);
            agmap::lemma_present_bit(flags);
        }
        if flags & AGF_PRESENT == 0 {
            return Err(FsError::NotPresent(ag));
        }
        if self.sb.free_blocks < hdr.free_blocks as u64 || self.sb.rsvd_blocks
            < hdr.rsvd_blocks as u64 {
            return Err(FsError::Corrupt);
        }
        let ghost before = self.map@;
        let e = AgEntry { flags: AGF_RETIRED, length, segs: Vec::new() };
        self.map.entries.set(i, e);
        proof {
            assert(e@ =~= (Group { flags: AGF_RETIRED, segs: Seq::empty(), ..gs[i as int] }));
            assert(self.map@.entries =~= before.entries.update(i as int, e@));
        }
        self.sb.free_blocks = self.sb.free_blocks - hdr.free_blocks as u64;
        self.sb.rsvd_blocks = self.sb.rsvd_blocks - hdr.rsvd_blocks as u64;
        self.store_map()
    }

    /// The first present group that reaches past `limit`.
    fn find_past(&self, limit: u64) -> (r: Option<u32>)
        requires
            self.map.entries@.len() <= u32::MAX,
        ensures
            match r {
                Some(i) => first_past(
                    self.map@.entries,
                    self.sb.blocksize,
                    limit as int,
                    0,
                ) == Some(i as int) && i < self.map.entries@.len(),
                None => first_past(
                    self.map@.entries,
                    self.sb.blocksize,
                    limit as int,
                    0,
                ) is None,
            },
    {
        let bs = self.sb.blocksize;
        let ghost gs = self.map@.entries;
        let mut i: usize = 0;
        while i < self.map.entries.len()
            invariant
                i <= self.map.entries@.len() == gs.len(),
                gs.len() <= u32::MAX,
                gs == self.map@.entries,
                bs == self.sb.blocksize,
                first_past(gs, bs, limit as int, 0) == first_past(gs, bs, limit as int, i as int),
            decreases self.map.entries@.len() - i,
        {
            let e = &self.map.entries[i];
            proof {
                assert(gs[i as int] == e@);
                agmap::lemma_present_bit(e.flags);
            }
            if e.flags & AGF_PRESENT != 0 && past(&e.segs, bs, limit) {
                proof {
                    let j = choose|j: int|
                        0 <= j < e.segs@.len() && seg_end(#[trigger] e.segs@[j], bs) > limit;
                    assert(seg_end(gs[i as int].segs[j], bs) > limit);
                }
                return Some(i as u32);
            }
            i = i + 1;
        }
        None
    }

    /// Find an unmapped gap of `bytes` ending at or before `limit`.
    pub fn find_gap(&self, bytes: u64, limit: u64) -> (r: Option<u64>)
        ensures
            match r {
                Some(x) => gap_in(
                    self.map@.entries,
                    self.sb.blocksize,
                    bytes as int,
                    limit as int,
                ) == Some(x as int),
                None => match gap_in(
                    self.map@.entries,
                    self.sb.blocksize,
                    bytes as int,
                    limit as int,
                ) {
                    Some(x) => x > u64::MAX,
                    None => true,
                },
            },
    {
        let segs = self.sorted_spans();
        let ghost s = span_views(segs@);
        let mut cursor: u128 = 0;
        let mut k: usize = 0;
        let lim = limit as u128;
        let want = bytes as u128;
        while k < segs.len()
            invariant
                k <= segs@.len(),
                s == span_views(segs@),
                lim == limit,
                want == bytes,
                s == spans_sorted(spans(self.map@.entries, self.sb.blocksize)),
                gap_from(s, bytes as int, limit as int, 0, 0) == gap_from(
                    s,
                    bytes as int,
                    limit as int,
                    k as int,
                    cursor as int,
                ),
            decreases segs@.len() - k,
        {
            let (s0, s1) = segs[k];
            assert(s[k as int] == (s0 as int, s1 as int));
            let top = if s0 < lim { s0 } else { lim };
            let room = if top > cursor { top - cursor } else { 0 };
            if s0 > cursor && room >= want {
                if cursor > u64::MAX as u128 {
                    return None;
                }
                return Some(cursor as u64);
            }
            if cursor < s1 {
                cursor = s1;
            }
            k = k + 1;
        }
        let room = if lim > cursor { lim - cursor } else { 0 };
        if room >= want {
            if cursor > u64::MAX as u128 {
                return None;
            }
            return Some(cursor as u64);
        }
        None
    }

    /// The byte ranges of all segments, in order.
    fn sorted_spans(&self) -> (r: Vec<(u128, u128)>)
        ensures
            span_views(r@) == spans_sorted(spans(self.map@.entries, self.sb.blocksize)),
    {
        let bs = self.sb.blocksize;
        let ghost gs = self.map@.entries;
        let mut out: Vec<(u128, u128)> = Vec::new();
        let mut i: usize = 0;
        assert(gs.take(0) =~= Seq::<Group>::empty());
        assert(span_views(out@) =~= spans_sorted(spans(gs.take(0), bs)));
        while i < self.map.entries.len()
            invariant
                i <= self.map.entries@.len() == gs.len(),
                gs == self.map@.entries,
                bs == self.sb.blocksize,
                span_views(out@) == spans_sorted(spans(gs.take(i as int), bs)),
            decreases self.map.entries@.len() - i,
        {
            let segs = &self.map.entries[i].segs;
            let ghost base = spans(gs.take(i as int), bs);
            let ghost ss = segs_spans(segs@, bs);
            let mut j: usize = 0;
            assert(base + ss.take(0) =~= base);
            while j < segs.len()
                invariant
                    j <= segs@.len() == ss.len(),
                    ss == segs_spans(segs@, bs),
                    span_views(out@) == spans_sorted(base + ss.take(j as int)),
                decreases segs@.len() - j,
            {
                let s = segs[j];
                let x = (s.dev_offset as u128, end_of_seg(&s, bs));
                insert_span(&mut out, x);
                proof {
                    let next = base + ss.take(j + 1);
                    assert(ss[j as int] == (x.0 as int, x.1 as int));
                    assert(next.drop_last() =~= base + ss.take(j as int));
                    assert(next.last() == ss[j as int]);
                }
                j = j + 1;
            }
            proof {
                assert(ss.take(ss.len() as int) =~= ss);
                assert(gs[i as int] == self.map.entries@[i as int]@);
                assert(gs.take(i + 1).drop_last() =~= gs.take(i as int));
            }
            i = i + 1;
        }
        assert(gs.take(gs.len() as int) =~= gs);
        out
    }

    /// Move a group that reaches past `limit` out of the way.
    fn move_below(&mut self, ag: u32, limit: u64) -> (r: Result<(), FsError>)
        requires
            old(self).wf(),
            ag < old(self).map.entries@.len(),
        ensures
            final(self).wf(),
            (img_of(*final(self)), r) == moved_below(img_of(*old(self)), ag, limit),
    {
        if ag == 0 {
            return Err(FsError::ShrinkFirst);
        }
        let hdr = self.read_ag_header(ag)?;
        if hdr.full_blocks == 0 {
            return self.retire(ag);
        }
        let bs = self.sb.blocksize;
        let length = self.map.entries[ag as usize].length;
        assert(self.map@.entries[ag as int] == self.map.entries@[ag as int]@);
        assert(length * bs <= 0xffff_ffff * 0xffff_ffff) by (nonlinear_arith)
            requires
                0 <= length <= 0xffff_ffff,
                0 <= bs <= 0xffff_ffff,
        ;
        match self.find_gap(length as u64 * bs as u64, limit) {
            Some(dest) => self.relocate(ag, dest),
            None => Err(FsError::NoGap { ag, limit }),
        }
    }

    /// Shrink the device to `new_size`: every group beyond it is retired (if
    /// empty) or relocated into a gap below, then the device is cut.
    pub fn shrink(&mut self, new_size: usize) -> (r: Result<(), FsError>)
        requires
            old(self).wf(),
            old(self).map.entries@.len() <= u32::MAX,
        ensures
            final(self).wf(),
            (img_of(*final(self)), r) == shrunk(img_of(*old(self)), new_size),
    {
        let limit = new_size as u64;
        let mut rounds = self.map.entries.len();
        let ghost want = cleared(img_of(*self), limit, rounds as int);
        loop
            invariant
                self.wf(),
                self.map.entries@.len() <= u32::MAX,
                limit == new_size,
                want == cleared(
                    img_of(*old(self)),
                    limit,
                    img_of(*old(self)).m.entries.len() as int,
                ),
                want == cleared(img_of(*self), limit, rounds as int),
            ensures
                self.wf(),
                want == (img_of(*self), Ok::<(), FsError>(())),
            decreases rounds,
        {
            let ag = match self.find_past(limit) {
                Some(ag) => ag,
                None => break,
            };
            if rounds == 0 {
                return Err(FsError::Corrupt);
            }
            let ghost before = img_of(*self);
            let ghost n = self.map.entries@.len();
            self.move_below(ag, limit)?;
            proof {
                lemma_moved_len(before, ag, limit);
                assert(self.map@.entries.len() == self.map.entries@.len());
            }
            rounds = rounds - 1;
        }
        self.dev.set_len(new_size);
        Ok(())
    }
}

/// Moving a group keeps the number of groups.
proof fn lemma_moved_len(x: Img, ag: u32, limit: u64)
    ensures
        moved_below(x, ag, limit).0.m.entries.len() == x.m.entries.len(),
{
}

pub open spec fn span_views(s: Seq<(u128, u128)>) -> Seq<(int, int)> {
    s.map_values(|x: (u128, u128)| (x.0 as int, x.1 as int))
}

/// Put a range among ranges in order.
fn insert_span(v: &mut Vec<(u128, u128)>, x: (u128, u128))
    ensures
        span_views(final(v)@) == put_span(span_views(old(v)@), (x.0 as int, x.1 as int)),
{
    let ghost base = span_views(v@);
    let ghost d = (x.0 as int, x.1 as int);
    let mut k = v.len();
    assert(base.take(k as int) =~= base);
    assert(base.skip(k as int) =~= Seq::<(int, int)>::empty());
    assert(put_span(base, d) =~= put_span(base.take(k as int), d) + base.skip(k as int));
    while k > 0 && !(v[k - 1].0 < x.0 || (v[k - 1].0 == x.0 && v[k - 1].1 <= x.1))
        invariant
            k <= v@.len(),
            base == span_views(v@),
            v@ == old(v)@,
            d == (x.0 as int, x.1 as int),
            put_span(base, d) == put_span(base.take(k as int), d) + base.skip(k as int),
        decreases k,
    {
        proof {
            let b = base.take(k as int);
            assert(b.last() == base[k - 1]);
            assert(b.drop_last() =~= base.take(k - 1));
            assert(put_span(b, d) == put_span(b.drop_last(), d).push(b.last()));
            assert(put_span(b.drop_last(), d).push(b.last()) + base.skip(k as int) =~= put_span(
                base.take(k - 1),
                d,
            ) + base.skip(k - 1));
        }
        k = k - 1;
    }
    proof {
        let b = base.take(k as int);
        assert(k > 0 ==> b.last() == base[k - 1]);
        assert(put_span(b, d) =~= b.push(d));
        assert(b.push(d) + base.skip(k as int) =~= base.insert(k as int, d));
    }
    v.insert(k, x);
    assert(span_views(v@) =~= base.insert(k as int, d));
}

/// Whether a segment ends past `limit`.
fn past(segs: &Vec<AgSegment>, bs: u32, limit: u64) -> (r: bool)
    ensures
        r == exists|j: int| 0 <= j < segs@.len() && seg_end(#[trigger] segs@[j], bs) > limit,
{
    let mut j: usize = 0;
    while j < segs.len()
        invariant
            j <= segs@.len(),
            forall|k: int| 0 <= k < j ==> seg_end(#[trigger] segs@[k], bs) <= limit,
        decreases segs@.len() - j,
    {
        if end_of_seg(&segs[j], bs) > limit as u128 {
            assert(seg_end(segs@[j as int], bs) > limit);
            return true;
        }
        j = j + 1;
    }
    false
}

/// A copy of a list of segments.
fn copy_of(segs: &Vec<AgSegment>) -> (r: Vec<AgSegment>)
    ensures
        r@ == segs@,
{
    let mut out: Vec<AgSegment> = Vec::new();
    let mut i: usize = 0;
    while i < segs.len()
        invariant
            i <= segs@.len(),
            out@ == segs@.take(i as int),
        decreases segs@.len() - i,
    {
        out.push(segs[i]);
        i = i + 1;
        assert(out@ =~= segs@.take(i as int));
    }
    assert(segs@.take(segs@.len() as int) =~= segs@);
    out
}

} // verus!
