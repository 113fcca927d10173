//! What resizing promises: space that is taken is not given away, group ids
//! are never used twice, a shrunk volume fits, and every block address stays
//! valid when a group moves.

use crate::agmap::{AgSegment, Group, Groups};
use crate::device::Dev;
use crate::error::FsError;
use crate::fmt::AGF_RETIRED;
use crate::resize::Img;
use crate::superblock::Superblock;
use crate::vol::Vol;
use vstd::prelude::*;

use crate::agmap;
use crate::device;
use crate::fmt;
use crate::fs;
use crate::header;
use crate::journal_laws;
use crate::mkfs_laws;
use crate::new_tables;
use crate::resize;
use crate::tables;
use crate::vol;

verus! {

// --- gaps ---------------------------------------------------------------------

/// Ranges in order of their starts.
spec fn ordered(s: Seq<(int, int)>) -> bool {
    forall|i: int, j: int| 0 <= i <= j < s.len() ==> (#[trigger] s[i]).0 <= (#[trigger] s[j]).0
}

/// Putting a range among ordered ones keeps them ordered, and all of them.
proof fn lemma_put_span(s: Seq<(int, int)>, x: (int, int))
    requires
        ordered(s),
    ensures
        ordered(resize::put_span(s, x)),
        resize::put_span(s, x).len() == s.len() + 1,
        resize::put_span(s, x).contains(x),
        forall|y: (int, int)| s.contains(y) ==> #[trigger] resize::put_span(s, x).contains(y),
        forall|y: (int, int)|
            #[trigger] resize::put_span(s, x).contains(y) ==> s.contains(y) || y == x,
    decreases s.len(),
{
    let r = resize::put_span(s, x);
    if s.len() == 0 || resize::span_le(s.last(), x) {
        assert(r[s.len() as int] == x);
        assert forall|y: (int, int)| s.contains(y) implies #[trigger] r.contains(y) by {
            let i = choose|i: int| 0 <= i < s.len() && s[i] == y;
            assert(r[i] == y);
        }
        assert forall|y: (int, int)| #[trigger] r.contains(y) implies s.contains(y) || y == x by {
            let i = choose|i: int| 0 <= i < r.len() && r[i] == y;
            if i < s.len() {
                assert(s[i] == y);
            }
        }
    } else {
        let b = s.drop_last();
        lemma_put_span(b, x);
        let q = resize::put_span(b, x);
        assert(r == q.push(s.last()));
        assert forall|y: (int, int)| s.contains(y) || y == x implies #[trigger] r.contains(y) by {
            if s.contains(y) {
                let i = choose|i: int| 0 <= i < s.len() && s[i] == y;
                if i < b.len() {
                    assert(b[i] == y);
                    assert(b.contains(y));
                    assert(q.contains(y));
                } else {
                    assert(r[q.len() as int] == y);
                }
            }
            if q.contains(y) {
                let j = choose|j: int| 0 <= j < q.len() && q[j] == y;
                assert(r[j] == y);
            }
        }
        assert forall|y: (int, int)| #[trigger] r.contains(y) implies s.contains(y) || y == x by {
            let i = choose|i: int| 0 <= i < r.len() && r[i] == y;
            if i < q.len() {
                assert(q[i] == y);
                assert(q.contains(y));
                if b.contains(y) {
                    let j = choose|j: int| 0 <= j < b.len() && b[j] == y;
                    assert(s[j] == y);
                }
            } else {
                assert(s[s.len() - 1] == y);
            }
        }
        assert forall|i: int, j: int| 0 <= i <= j < r.len() implies (#[trigger] r[i]).0 <= (
        #[trigger] r[j]).0 by {
            if j == q.len() && i < q.len() {
                assert(q.contains(q[i]));
                if q[i] != x {
                    let k = choose|k: int| 0 <= k < b.len() && b[k] == q[i];
                    assert(s[k].0 <= s[s.len() - 1].0);
                }
            }
        }
    }
}

/// Sorting keeps all ranges and orders them.
proof fn lemma_spans_sorted(s: Seq<(int, int)>)
    ensures
        ordered(resize::spans_sorted(s)),
        forall|y: (int, int)| s.contains(y) ==> #[trigger] resize::spans_sorted(s).contains(y),
        forall|y: (int, int)| #[trigger] resize::spans_sorted(s).contains(y) ==> s.contains(y),
    decreases s.len(),
{
    if s.len() > 0 {
        let b = s.drop_last();
        lemma_spans_sorted(b);
        lemma_put_span(resize::spans_sorted(b), s.last());
        assert forall|y: (int, int)| #[trigger] resize::spans_sorted(
            s,
        ).contains(y) implies s.contains(y) by {
            if y == s.last() {
                assert(s[s.len() - 1] == y);
            } else {
                assert(resize::spans_sorted(b).contains(y));
                let i = choose|i: int| 0 <= i < b.len() && b[i] == y;
                assert(s[i] == y);
            }
        }
        assert forall|y: (int, int)| s.contains(y) implies #[trigger] resize::spans_sorted(
            s,
        ).contains(y) by {
            let i = choose|i: int| 0 <= i < s.len() && s[i] == y;
            if i < b.len() {
                assert(b[i] == y);
                assert(b.contains(y));
                assert(resize::spans_sorted(b).contains(y));
            }
        }
    }
}

/// The range of every segment is among the spans.
pub proof fn lemma_spans_all(gs: Seq<Group>, bs: u32, i: int, j: int)
    requires
        0 <= i < gs.len(),
        0 <= j < gs[i].segs.len(),
    ensures
        resize::spans(gs, bs).contains(
            (gs[i].segs[j].dev_offset as int, resize::seg_end(gs[i].segs[j], bs)),
        ),
    decreases gs.len(),
{
    let b = gs.drop_last();
    let here = resize::segs_spans(gs.last().segs, bs);
    let all = resize::spans(gs, bs);
    let y = (gs[i].segs[j].dev_offset as int, resize::seg_end(gs[i].segs[j], bs));
    if i < b.len() {
        lemma_spans_all(b, bs, i, j);
        let k = choose|k: int| 0 <= k < resize::spans(b, bs).len() && resize::spans(b, bs)[k] == y;
        assert(all[k] == y);
    } else {
        assert(here[j] == y);
        assert(all[resize::spans(b, bs).len() + j] == y);
    }
}

/// A gap that is found starts behind every range before `k`, ends before every
/// range from `k` on, and below the limit.
proof fn lemma_gap_from(s: Seq<(int, int)>, bytes: int, limit: int, k: int, cursor: int)
    requires
        ordered(s),
        0 <= k <= s.len(),
        bytes > 0,
        forall|i: int| 0 <= i < k ==> (#[trigger] s[i]).1 <= cursor,
    ensures
        resize::gap_from(s, bytes, limit, k, cursor) matches Some(x) ==> x + bytes <= limit
            && forall|i: int|
            0 <= i < s.len() ==> (#[trigger] s[i]).1 <= x || x + bytes <= s[i].0,
    decreases s.len() - k,
{
    if k < s.len() {
        let top = if s[k].0 < limit {
            s[k].0
        } else {
            limit
        };
        let room = if top > cursor {
            top - cursor
        } else {
            0
        };
        if s[k].0 > cursor && room >= bytes {
            assert forall|i: int| 0 <= i < s.len() implies (#[trigger] s[i]).1 <= cursor || cursor
                + bytes <= s[i].0 by {
                if i >= k {
                    assert(s[k].0 <= s[i].0);
                }
            }
        } else {
            let c = if cursor < s[k].1 {
                s[k].1
            } else {
                cursor
            };
            lemma_gap_from(s, bytes, limit, k + 1, c);
        }
    }
}

/// A gap that is found touches no segment and ends at or before the limit.
pub proof fn law_gap_is_free(gs: Seq<Group>, bs: u32, bytes: int, limit: int)
    requires
        bytes > 0,
    ensures
        resize::gap_in(gs, bs, bytes, limit) matches Some(x) ==> x + bytes <= limit
            && !resize::region_taken(gs, bs, x, bytes, -1),
{
    let s = resize::spans_sorted(resize::spans(gs, bs));
    lemma_spans_sorted(resize::spans(gs, bs));
    lemma_gap_from(s, bytes, limit, 0, 0);
    if let Some(x) = resize::gap_in(gs, bs, bytes, limit) {
        assert forall|i: int, j: int|
            0 <= i < gs.len() && 0 <= j < gs[i].segs.len() implies !(#[trigger] resize::seg_meets(
            gs[i].segs[j],
            bs,
            x,
            bytes,
        )) by {
            lemma_spans_all(gs, bs, i, j);
            let y = (gs[i].segs[j].dev_offset as int, resize::seg_end(gs[i].segs[j], bs));
            assert(s.contains(y));
            let k = choose|k: int| 0 <= k < s.len() && s[k] == y;
            assert(s[k].1 <= x || x + bytes <= s[k].0);
        }
    }
}

/// Every span is the range of a segment.
proof fn lemma_span_of(gs: Seq<Group>, bs: u32, y: (int, int)) -> (r: (int, int))
    requires
        resize::spans(gs, bs).contains(y),
    ensures
        0 <= r.0 < gs.len(),
        0 <= r.1 < gs[r.0].segs.len(),
        y == (
            gs[r.0].segs[r.1].dev_offset as int,
            resize::seg_end(gs[r.0].segs[r.1], bs),
        ),
    decreases gs.len(),
{
    let all = resize::spans(gs, bs);
    let k = choose|k: int| 0 <= k < all.len() && all[k] == y;
    let b = gs.drop_last();
    let before = resize::spans(b, bs);
    let here = resize::segs_spans(gs.last().segs, bs);
    if k < before.len() {
        assert(before[k] == y);
        assert(before.contains(y));
        let r = lemma_span_of(b, bs, y);
        assert(b[r.0] == gs[r.0]);
        r
    } else {
        assert(here[k - before.len()] == y);
        ((gs.len() - 1) as int, k - before.len())
    }
}

/// A free region from `cursor` on is not passed over.
proof fn lemma_gap_least(s: Seq<(int, int)>, bytes: int, limit: int, k: int, cursor: int, y: int)
    requires
        0 <= k <= s.len(),
        bytes > 0,
        cursor <= y,
        y + bytes <= limit,
        forall|i: int| 0 <= i < s.len() ==> (#[trigger] s[i]).1 <= y || y + bytes <= s[i].0,
    ensures
        resize::gap_from(s, bytes, limit, k, cursor) matches Some(x) && x <= y,
    decreases s.len() - k,
{
    if k < s.len() {
        let top = if s[k].0 < limit {
            s[k].0
        } else {
            limit
        };
        let room = if top > cursor {
            top - cursor
        } else {
            0
        };
        if !(s[k].0 > cursor && room >= bytes) {
            let c = if cursor < s[k].1 {
                s[k].1
            } else {
                cursor
            };
            assert(s[k].1 <= y);
            lemma_gap_least(s, bytes, limit, k + 1, c, y);
        }
    }
}

/// The gap that is found is the lowest: wherever a region of the size touches no
/// segment and ends at or before the limit, a gap is found, at that place or below.
pub proof fn law_gap_is_the_lowest(gs: Seq<Group>, bs: u32, bytes: int, limit: int, y: int)
    requires
        bytes > 0,
        0 <= y,
        y + bytes <= limit,
        !resize::region_taken(gs, bs, y, bytes, -1),
    ensures
        resize::gap_in(gs, bs, bytes, limit) matches Some(x) && x <= y,
{
    let s = resize::spans_sorted(resize::spans(gs, bs));
    lemma_spans_sorted(resize::spans(gs, bs));
    assert forall|i: int| 0 <= i < s.len() implies (#[trigger] s[i]).1 <= y || y + bytes
        <= s[i].0 by {
        assert(s.contains(s[i]));
        let (g, j) = lemma_span_of(gs, bs, s[i]);
        assert(!resize::seg_meets(gs[g].segs[j], bs, y, bytes));
    }
    lemma_gap_least(s, bytes, limit, 0, 0, y);
}

// --- ids and sizes ------------------------------------------------------------

/// Nothing is written to the map's entries, the counter of ids or the block
/// size when they are stored.
pub proof fn lemma_map_stored(x: Img)
    ensures
        resize::map_stored(x).0.m.entries == x.m.entries,
        resize::map_stored(x).0.sb.next_ag == x.sb.next_ag,
        resize::map_stored(x).0.sb.blocksize == x.sb.blocksize,
        resize::map_stored(x).0.d.bytes.len() == x.d.bytes.len(),
{
    let (d1, m1, r1) = fs::map_write(x.d, x.sb, x.m);
    if r1 is Ok && x.sb.gen < u64::MAX {
        journal_laws::lemma_writes_len(
            d1,
            fs::sb_writes(Superblock { gen: (x.sb.gen + 1) as u64, ..x.sb }, m1.entries),
        );
    }
}

/// Whether a group was retired.
pub open spec fn is_retired(g: Group) -> bool {
    g.flags / 4 % 2 == 1 && !agmap::is_present(g.flags)
}

/// Between two states of a volume no id was given back: ids are counted up
/// only, no entry disappears, and what was retired stays as it is.
pub open spec fn ids_kept(x: Img, y: Img) -> bool {
    &&& y.sb.next_ag >= x.sb.next_ag
    &&& y.m.entries.len() >= x.m.entries.len()
    &&& forall|i: int|
        0 <= i < x.m.entries.len() && is_retired(#[trigger] x.m.entries[i]) ==> y.m.entries[i]
            == x.m.entries[i]
}

/// A new group gets an id that none had before: `next_ag`, which counts on.
/// The group's entry stands under that id.
pub proof fn law_new_group_gets_a_new_id(x: Img, off: u64, bytes: u64)
    requires
        x.m.entries.len() == x.sb.next_ag,
    ensures
        ids_kept(x, resize::group_added(x, off, bytes).0),
        resize::group_added(x, off, bytes).1 matches Ok(ag) ==> {
            let y = resize::group_added(x, off, bytes).0;
            &&& ag == x.sb.next_ag
            &&& y.sb.next_ag == ag + 1
            &&& y.m.entries.len() == y.sb.next_ag
            &&& agmap::is_present(y.m.entries[ag as int].flags)
            &&& forall|i: int| 0 <= i < ag ==> y.m.entries[i] == x.m.entries[i]
        },
{
    let bs = x.sb.blocksize;
    let len = (bytes as int / bs as int % 0x1_0000_0000) as u32;
    let free = resize::new_free(len, bs);
    let ag = x.sb.next_ag;
    let (d1, r1) = device::dev_writes(
        x.d,
        seq![
            (
                Ok::<u64, FsError>(off),
                fs::header_block(resize::new_header(ag, len, bs), bs),
            ),
            (
                Ok::<u64, FsError>((off + bs) as u64),
                resize::base_table(len, bs, 1 + header::table_blocks(len, bs)),
            ),
        ],
    );
    lemma_map_stored(
        Img {
            d: device::dev_sync(d1),
            sb: Superblock {
                next_ag: (ag + 1) as u32,
                free_blocks: (x.sb.free_blocks + free) as u64,
                rsvd_blocks: (x.sb.rsvd_blocks + (len - free)) as u64,
                ..x.sb
            },
            m: Groups {
                entries: x.m.entries.push(
                    resize::whole_group(crate::fmt::AGF_PRESENT, len, off),
                ),
                ..x.m
            },
        },
    );
}

/// Growing gives the new group an id that none had before.
pub proof fn law_growing_gets_a_new_id(x: Img, size: usize)
    requires
        x.m.entries.len() == x.sb.next_ag,
    ensures
        ids_kept(x, resize::grown(x, size).0),
        resize::grown(x, size).1 matches Ok(ag) ==> ag == x.sb.next_ag && resize::grown(
            x,
            size,
        ).0.sb.next_ag == ag + 1,
{
    let end = resize::groups_end(x.m.entries, x.sb.blocksize);
    if size > end {
        let d1 = if size > x.d.bytes.len() {
            Dev {
                bytes: device::applied(x.d.bytes, device::Io::SetLen(size as u64)),
                log: x.d.log.push(device::Io::SetLen(size as u64)),
                ..x.d
            }
        } else {
            x.d
        };
        law_new_group_gets_a_new_id(Img { d: d1, ..x }, end as u64, (size - end) as u64);
    }
}

/// Retiring a group takes its id out of use for good: the entry stays, marked
/// retired and without space.
pub proof fn law_retiring_keeps_ids(x: Img, ag: u32)
    ensures
        ids_kept(x, resize::retired(x, ag).0),
        resize::retired(x, ag).0.sb.next_ag == x.sb.next_ag,
        resize::retired(x, ag).0.m.entries.len() == x.m.entries.len(),
        resize::retired(x, ag).1 is Ok ==> is_retired(
            resize::retired(x, ag).0.m.entries[ag as int],
        ) && resize::retired(x, ag).0.m.entries[ag as int].segs.len() == 0,
{
    let gs = x.m.entries;
    let v = Vol { bytes: x.d.bytes, groups: gs, bs: x.sb.blocksize };
    if ag != 0 {
        if let Ok(h) = fs::header_of(v, Map::empty(), ag) {
            if ag < gs.len() {
                lemma_map_stored(
                    Img {
                        sb: Superblock {
                            free_blocks: (x.sb.free_blocks - h.free_blocks) as u64,
                            rsvd_blocks: (x.sb.rsvd_blocks - h.rsvd_blocks) as u64,
                            ..x.sb
                        },
                        m: Groups {
                            entries: gs.update(
                                ag as int,
                                Group { flags: AGF_RETIRED, segs: Seq::empty(), ..gs[ag as int] },
                            ),
                            ..x.m
                        },
                        ..x
                    },
                );
            }
        }
    }
}

/// Moving a group keeps all ids.
pub proof fn law_moving_keeps_ids(x: Img, ag: u32, dest: u64)
    ensures
        ids_kept(x, resize::relocated(x, ag, dest).0),
        resize::relocated(x, ag, dest).0.sb.next_ag == x.sb.next_ag,
        resize::relocated(x, ag, dest).0.sb.blocksize == x.sb.blocksize,
        resize::relocated(x, ag, dest).0.m.entries.len() == x.m.entries.len(),
{
    let bs = x.sb.blocksize;
    let gs = x.m.entries;
    if ag < gs.len() {
        let g = gs[ag as int];
        let (d1, r1) = resize::segs_copied(x.d, g.segs, bs, dest, 0);
        lemma_map_stored(
            Img {
                d: device::dev_sync(d1),
                m: Groups {
                    entries: gs.update(
                        ag as int,
                        resize::whole_group(g.flags, g.length, dest),
                    ),
                    ..x.m
                },
                ..x
            },
        );
    }
}

/// Moving groups out of the way keeps all ids, and leaves none of them past
/// the limit.
pub proof fn lemma_cleared(x: Img, limit: u64, rounds: int)
    ensures
        ids_kept(x, resize::cleared(x, limit, rounds).0),
        resize::cleared(x, limit, rounds).0.sb.next_ag == x.sb.next_ag,
        resize::cleared(x, limit, rounds).0.sb.blocksize == x.sb.blocksize,
        resize::cleared(x, limit, rounds).0.m.entries.len() == x.m.entries.len(),
        resize::cleared(x, limit, rounds).1 is Ok ==> resize::first_past(
            resize::cleared(x, limit, rounds).0.m.entries,
            x.sb.blocksize,
            limit as int,
            0,
        ) is None,
    decreases rounds,
{
    if let Some(i) = resize::first_past(x.m.entries, x.sb.blocksize, limit as int, 0) {
        if rounds > 0 {
            let ag = i as u32;
            let (y, r) = resize::moved_below(x, ag, limit);
            law_retiring_keeps_ids(x, ag);
            lemma_retired_blocksize(x, ag);
            let gap = resize::gap_in(
                x.m.entries,
                x.sb.blocksize,
                x.m.entries[ag as int].length * x.sb.blocksize,
                limit as int,
            );
            if let Some(dest) = gap {
                law_moving_keeps_ids(x, ag, dest as u64);
            }
            if r is Ok {
                lemma_cleared(y, limit, rounds - 1);
                let z = resize::cleared(y, limit, rounds - 1).0;
                assert forall|k: int|
                    0 <= k < x.m.entries.len() && is_retired(#[trigger] x.m.entries[k]) implies
                    z.m.entries[k] == x.m.entries[k] by {
                    assert(y.m.entries[k] == x.m.entries[k]);
                }
            }
        }
    }
}

proof fn lemma_retired_blocksize(x: Img, ag: u32)
    ensures
        resize::retired(x, ag).0.sb.blocksize == x.sb.blocksize,
{
}

/// No present group from `i` on reaches past the limit.
pub proof fn lemma_none_past(gs: Seq<Group>, bs: u32, limit: int, i: int)
    requires
        0 <= i,
        resize::first_past(gs, bs, limit, i) is None,
    ensures
        forall|k: int, j: int|
            i <= k < gs.len() && agmap::is_present(gs[k].flags) && 0 <= j < gs[k].segs.len()
                ==> resize::seg_end(#[trigger] gs[k].segs[j], bs) <= limit,
    decreases gs.len() - i,
{
    if i < gs.len() {
        lemma_none_past(gs, bs, limit, i + 1);
        assert forall|k: int, j: int|
            i <= k < gs.len() && agmap::is_present(gs[k].flags) && 0 <= j
                < gs[k].segs.len() implies resize::seg_end(#[trigger] gs[k].segs[j], bs)
            <= limit by {
            if k == i {
                assert(!resize::reaches_past(gs[i], bs, limit));
            }
        }
    }
}

/// A shrunk volume fits its device: it is as long as asked for, and no segment
/// of a present group reaches past its end. No id is given back.
pub proof fn law_shrunk_volume_fits(x: Img, size: usize)
    ensures
        ids_kept(x, resize::shrunk(x, size).0),
        resize::shrunk(x, size).1 is Ok ==> {
            let y = resize::shrunk(x, size).0;
            &&& y.d.bytes.len() == size
            &&& y.sb.blocksize == x.sb.blocksize
            &&& forall|k: int, j: int|
                0 <= k < y.m.entries.len() && agmap::is_present(y.m.entries[k].flags) && 0 <= j
                    < y.m.entries[k].segs.len() ==> resize::seg_end(
                    #[trigger] y.m.entries[k].segs[j],
                    y.sb.blocksize,
                ) <= size
        },
{
    let n = x.m.entries.len() as int;
    lemma_cleared(x, size as u64, n);
    let y = resize::cleared(x, size as u64, n).0;
    if resize::cleared(x, size as u64, n).1 is Ok {
        lemma_none_past(y.m.entries, x.sb.blocksize, size as int, 0);
    }
}

// --- moving a group -----------------------------------------------------------

/// A copy from `src` to `dst` never overwrites what it has yet to read: it goes
/// downwards, or the two ranges share nothing.
pub open spec fn copy_safe(src: int, dst: int, total: int) -> bool {
    dst <= src || journal_laws::apart(src, total, dst, total)
}

/// Copying from byte `done` on puts every byte in its place and changes
/// nothing else.
proof fn lemma_copied(d: Dev, src: u64, dst: int, total: int, done: int, step: int)
    requires
        step > 0,
        0 <= done <= total,
        0 <= dst,
        copy_safe(src as int, dst, total),
        resize::copied(d, src, dst, total, done, step).1 is Ok,
    ensures
        ({
            let e = resize::copied(d, src, dst, total, done, step).0;
            &&& e.bytes.len() == d.bytes.len()
            &&& done < total ==> src + total <= d.bytes.len() && dst + total <= d.bytes.len()
            &&& forall|k: int|
                done <= k < total ==> e.bytes[dst + k] == #[trigger] d.bytes[src + k]
            &&& forall|q: int|
                0 <= q < d.bytes.len() && !(dst + done <= q < dst + total)
                    ==> #[trigger] e.bytes[q] == d.bytes[q]
        }),
    decreases total - done,
{
    let n = if step < total - done {
        step
    } else {
        total - done
    };
    if done < total {
        let b = device::dev_read(d.bytes, (src + done) as u64, n)->Ok_0;
        let (d1, r1) = device::dev_write(d, (dst + done) as u64, b);
        assert(r1 is Ok);
        lemma_copied(d1, src, dst, total, done + n, step);
        let e = resize::copied(d1, src, dst, total, done + n, step).0;
        assert forall|k: int| done <= k < total implies e.bytes[dst + k] == #[trigger] d.bytes[src
            + k] by {
            if k < done + n {
                assert(d1.bytes[dst + k] == b[k - done]);
                assert(e.bytes[dst + k] == d1.bytes[dst + k]);
            } else {
                assert(d1.bytes[src + k] == d.bytes[src + k]);
                assert(e.bytes[dst + k] == d1.bytes[src + k]);
            }
        }
        assert forall|q: int|
            0 <= q < d.bytes.len() && !(dst + done <= q < dst
                + total) implies #[trigger] e.bytes[q] == d.bytes[q] by {
            assert(d1.bytes[q] == d.bytes[q]);
        }
    }
}

/// Where segment `s` goes when its group moves to `dest`.
pub open spec fn target(s: AgSegment, bs: u32, dest: u64) -> int {
    dest + s.ag_block * bs
}

/// No copy of a segment overwrites what is yet to be read, and no two segments
/// go to the same place.
pub open spec fn move_safe(segs: Seq<AgSegment>, bs: u32, dest: u64) -> bool {
    &&& forall|k: int|
        0 <= k < segs.len() ==> copy_safe(
            (#[trigger] segs[k]).dev_offset as int,
            target(segs[k], bs, dest),
            segs[k].blocks * bs,
        )
    &&& forall|j: int, k: int|
        #![trigger segs[j], segs[k]]
        0 <= j < k < segs.len() ==> journal_laws::apart(
            target(segs[j], bs, dest),
            segs[j].blocks * bs,
            segs[k].dev_offset as int,
            segs[k].blocks * bs,
        ) && journal_laws::apart(
            target(segs[j], bs, dest),
            segs[j].blocks * bs,
            target(segs[k], bs, dest),
            segs[k].blocks * bs,
        )
}

/// Copying segments from `k` on keeps every range that none of them goes to.
proof fn lemma_segs_frame(
    d: Dev,
    segs: Seq<AgSegment>,
    bs: u32,
    dest: u64,
    k: int,
    p: int,
    n: int,
)
    requires
        bs > 0,
        0 <= k <= segs.len(),
        move_safe(segs, bs, dest),
        resize::segs_copied(d, segs, bs, dest, k).1 is Ok,
        0 <= p,
        0 <= n,
        p + n <= d.bytes.len(),
        forall|j: int|
            k <= j < segs.len() ==> journal_laws::apart(
                p,
                n,
                target(#[trigger] segs[j], bs, dest),
                segs[j].blocks * bs,
            ),
    ensures
        resize::segs_copied(d, segs, bs, dest, k).0.bytes.len() == d.bytes.len(),
        resize::segs_copied(d, segs, bs, dest, k).0.bytes.subrange(p, p + n) == d.bytes.subrange(
            p,
            p + n,
        ),
    decreases segs.len() - k,
{
    if k < segs.len() {
        let s = segs[k];
        lemma_products(s, bs);
        let (d1, r1) = resize::copied(
            d,
            s.dev_offset,
            dest + s.ag_block * bs,
            s.blocks * bs,
            0,
            256 * bs,
        );
        lemma_copied(d, s.dev_offset, target(s, bs, dest), s.blocks * bs, 0, 256 * bs);
        lemma_segs_frame(d1, segs, bs, dest, k + 1, p, n);
        assert(d1.bytes.subrange(p, p + n) =~= d.bytes.subrange(p, p + n));
    }
}

proof fn lemma_products(s: AgSegment, bs: u32)
    ensures
        0 <= s.ag_block * bs,
        0 <= s.blocks * bs,
{
    assert(0 <= s.ag_block * bs && 0 <= s.blocks * bs) by (nonlinear_arith);
}

/// Copying segments from `k` on puts segment `j` in its place.
proof fn lemma_segs_hit(d: Dev, segs: Seq<AgSegment>, bs: u32, dest: u64, k: int, j: int)
    requires
        bs > 0,
        0 <= k <= j < segs.len(),
        segs[j].blocks > 0,
        move_safe(segs, bs, dest),
        resize::segs_copied(d, segs, bs, dest, k).1 is Ok,
    ensures
        ({
            let e = resize::segs_copied(d, segs, bs, dest, k).0;
            let n = segs[j].blocks * bs;
            let t = target(segs[j], bs, dest);
            &&& e.bytes.len() == d.bytes.len()
            &&& segs[j].dev_offset + n <= d.bytes.len()
            &&& t + n <= d.bytes.len()
            &&& e.bytes.subrange(t, t + n) == d.bytes.subrange(
                segs[j].dev_offset as int,
                segs[j].dev_offset + n,
            )
        }),
    decreases j - k,
{
    let s = segs[k];
    lemma_products(s, bs);
    lemma_products(segs[j], bs);
    assert(segs[j].blocks * bs > 0) by (nonlinear_arith)
        requires
            segs[j].blocks > 0,
            bs > 0,
    ;
    let (d1, r1) = resize::copied(
        d,
        s.dev_offset,
        dest + s.ag_block * bs,
        s.blocks * bs,
        0,
        256 * bs,
    );
    lemma_copied(d, s.dev_offset, target(s, bs, dest), s.blocks * bs, 0, 256 * bs);
    let n = segs[j].blocks * bs;
    let t = target(segs[j], bs, dest);
    let o = segs[j].dev_offset as int;
    if k == j {
        assert(d1.bytes.subrange(t, t + n) =~= d.bytes.subrange(o, o + n)) by {
            assert forall|i: int| 0 <= i < n implies #[trigger] d1.bytes.subrange(t, t + n)[i]
                == d.bytes.subrange(o, o + n)[i] by {
                assert(d1.bytes[t + i] == d.bytes[o + i]);
            }
        }
        assert forall|i: int| k + 1 <= i < segs.len() implies journal_laws::apart(
            t,
            n,
            target(#[trigger] segs[i], bs, dest),
            segs[i].blocks * bs,
        ) by {
            assert(segs[j] == segs[k]);
        }
        lemma_segs_frame(d1, segs, bs, dest, k + 1, t, n);
    } else {
        lemma_segs_hit(d1, segs, bs, dest, k + 1, j);
        assert(d1.bytes.subrange(o, o + n) =~= d.bytes.subrange(o, o + n)) by {
            assert(journal_laws::apart(
                target(segs[k], bs, dest),
                segs[k].blocks * bs,
                segs[j].dev_offset as int,
                segs[j].blocks * bs,
            ));
        }
    }
}

/// The range lies in a segment of group 0.
pub open spec fn held_by_first(gs: Seq<Group>, bs: u32, p: int, n: int) -> bool {
    exists|j: int|
        0 <= j < gs[0].segs.len() && (#[trigger] gs[0].segs[j]).dev_offset <= p && p + n
            <= resize::seg_end(gs[0].segs[j], bs)
}

/// Superblock, backup and both copies of the AG map lie in group 0, which does
/// not move.
pub open spec fn anchored(x: Img) -> bool {
    let gs = x.m.entries;
    let bs = x.sb.blocksize;
    &&& gs.len() > 0
    &&& gs[0].flags / 2 % 2 == 1
    &&& held_by_first(gs, bs, 0, 512)
    &&& fs::backup_place(gs, bs) matches Some(Ok(q)) ==> held_by_first(gs, bs, q as int, 512)
    &&& held_by_first(gs, bs, x.sb.agmap_offset as int, x.sb.agmap_length as int)
    &&& held_by_first(gs, bs, x.sb.agmap_offset + x.sb.agmap_length, x.sb.agmap_length as int)
}

/// The range touches neither superblock, backup nor AG map.
pub open spec fn off_anchors(x: Img, p: int, n: int) -> bool {
    &&& journal_laws::off_superblock(x.m.entries, x.sb.blocksize, p, n)
    &&& journal_laws::apart(p, n, x.sb.agmap_offset as int, 2 * x.sb.agmap_length)
}

/// Storing AG map and superblock keeps everything else.
pub proof fn lemma_stored_frame(x: Img, p: int, n: int)
    requires
        0 <= p,
        0 <= n,
        p + n <= x.d.bytes.len(),
        off_anchors(x, p, n),
        resize::map_stored(x).1 is Ok,
    ensures
        resize::map_stored(x).0.d.bytes.len() == x.d.bytes.len(),
        resize::map_stored(x).0.d.bytes.subrange(p, p + n) == x.d.bytes.subrange(p, p + n),
{
    let (d1, m1, r1) = fs::map_write(x.d, x.sb, x.m);
    let img = agmap::map_image(m1, x.sb.agmap_length as int);
    let off = x.sb.agmap_offset + if m1.gen % 2 == 0 {
        0
    } else {
        x.sb.agmap_length as int
    };
    agmap::lemma_image_len(m1, x.sb.agmap_length as int);
    assert(d1.bytes.subrange(p, p + n) =~= x.d.bytes.subrange(p, p + n));
    journal_laws::lemma_sb_write_frame(d1, x.sb, m1.entries, p, n);
}

/// The segment that maps a block covers it.
pub proof fn lemma_find_seg(segs: Seq<AgSegment>, local: u32)
    ensures
        agmap::find_seg(segs, local) matches Some(s) ==> agmap::seg_covers(s, local) && exists|
            j: int,
        | 0 <= j < segs.len() && #[trigger] segs[j] == s,
    decreases segs.len(),
{
    if segs.len() > 0 && !agmap::seg_covers(segs[0], local) {
        lemma_find_seg(segs.skip(1), local);
        if let Some(s) = agmap::find_seg(segs.skip(1), local) {
            let j = choose|j: int| 0 <= j < segs.skip(1).len() && #[trigger] segs.skip(1)[j] == s;
            assert(segs[j + 1] == s);
        }
    } else if segs.len() > 0 {
        assert(segs[0] == segs[0]);
    }
}

/// The segments of a group map blocks of the group.
pub open spec fn inside(g: Group) -> bool {
    forall|k: int|
        0 <= k < g.segs.len() ==> (#[trigger] g.segs[k]).ag_block + g.segs[k].blocks <= g.length
}

/// Where a segment goes lies in the new home of the group.
proof fn lemma_target_inside(g: Group, bs: u32, dest: u64, k: int)
    requires
        inside(g),
        0 <= k < g.segs.len(),
    ensures
        dest <= target(g.segs[k], bs, dest),
        target(g.segs[k], bs, dest) + g.segs[k].blocks * bs <= dest + g.length * bs,
{
    let s = g.segs[k];
    assert(0 <= s.ag_block * bs && s.ag_block * bs + s.blocks * bs <= g.length * bs)
        by (nonlinear_arith)
        requires
            s.ag_block + s.blocks <= g.length,
    ;
}

/// Moving another group than the first leaves the anchors where they are.
proof fn lemma_anchors_same(x: Img, y: Img, p: int, n: int)
    requires
        x.sb == y.sb,
        x.m.entries.len() == y.m.entries.len(),
        x.m.entries.len() > 0,
        x.m.entries[0] == y.m.entries[0],
    ensures
        off_anchors(x, p, n) == off_anchors(y, p, n),
{
}

/// A region that no other group takes is off the anchors.
pub proof fn lemma_free_off_anchors(x: Img, ag: int, dest: int, len: int, p: int, n: int)
    requires
        anchored(x),
        ag != 0,
        0 < n,
        dest <= p,
        p + n <= dest + len,
        !resize::region_taken(x.m.entries, x.sb.blocksize, dest, len, ag),
    ensures
        off_anchors(x, p, n),
{
    let gs = x.m.entries;
    let bs = x.sb.blocksize;
    lemma_held_apart(gs, bs, ag, dest, len, 0, 512, p, n);
    if let Some(Ok(q)) = fs::backup_place(gs, bs) {
        lemma_held_apart(gs, bs, ag, dest, len, q as int, 512, p, n);
    }
    let a = x.sb.agmap_offset as int;
    let l = x.sb.agmap_length as int;
    lemma_held_apart(gs, bs, ag, dest, len, a, l, p, n);
    lemma_held_apart(gs, bs, ag, dest, len, a + l, l, p, n);
}

pub proof fn lemma_held_apart(
    gs: Seq<Group>,
    bs: u32,
    ag: int,
    dest: int,
    len: int,
    a: int,
    l: int,
    p: int,
    n: int,
)
    requires
        gs.len() > 0,
        ag != 0,
        held_by_first(gs, bs, a, l),
        !resize::region_taken(gs, bs, dest, len, ag),
        dest <= p,
        0 < n,
        p + n <= dest + len,
    ensures
        journal_laws::apart(p, n, a, l),
{
    let j = choose|j: int|
        0 <= j < gs[0].segs.len() && (#[trigger] gs[0].segs[j]).dev_offset <= a && a + l
            <= resize::seg_end(gs[0].segs[j], bs);
    assert(!resize::seg_meets(gs[0].segs[j], bs, dest, len));
}

/// Moving a group keeps every block address valid: whatever block could be
/// read before, in this group or another, has the same contents afterwards.
/// Left out are the blocks of the superblock, its backup and the AG map, which
/// the move itself writes.
pub proof fn law_moving_keeps_every_block(x: Img, ag: u32, dest: u64, blk: u64)
    requires
        x.sb.blocksize > 0,
        x.d.bytes.len() <= u64::MAX,
        anchored(x),
        ag < x.m.entries.len() ==> inside(x.m.entries[ag as int]) && move_safe(
            x.m.entries[ag as int].segs,
            x.sb.blocksize,
            dest,
        ),
        resize::relocated(x, ag, dest).1 is Ok,
        ({
            let v = Vol { bytes: x.d.bytes, groups: x.m.entries, bs: x.sb.blocksize };
            &&& vol::rd0(v, blk) is Ok
            &&& off_anchors(
                x,
                vol::place(x.m.entries, x.sb.blocksize, blk)->Ok_0 as int,
                x.sb.blocksize as int,
            )
        }),
    ensures
        ({
            let y = resize::relocated(x, ag, dest).0;
            vol::rd0(
                Vol { bytes: y.d.bytes, groups: y.m.entries, bs: y.sb.blocksize },
                blk,
            ) == vol::rd0(
                Vol { bytes: x.d.bytes, groups: x.m.entries, bs: x.sb.blocksize },
                blk,
            )
        }),
{
    let bs = x.sb.blocksize;
    let gs = x.m.entries;
    let g = gs[ag as int];
    assert(ag != 0);
    let gs1 = gs.update(ag as int, resize::whole_group(g.flags, g.length, dest));
    let (d1, r1) = resize::segs_copied(x.d, g.segs, bs, dest, 0);
    let z = Img {
        d: device::dev_sync(d1),
        m: Groups { entries: gs1, ..x.m },
        ..x
    };
    let y = resize::map_stored(z).0;
    lemma_map_stored(z);
    let p = vol::place(gs, bs, blk)->Ok_0 as int;
    let a = fmt::addr_ag(blk);
    let local = fmt::addr_local(blk);
    let s = agmap::find_seg(gs[a as int].segs, local)->0;
    lemma_find_seg(gs[a as int].segs, local);
    let j = choose|j: int| 0 <= j < gs[a as int].segs.len() && #[trigger] gs[a as int].segs[j] == s;
    let i = (local - s.ag_block) as int;
    assert(i * bs + bs <= s.blocks * bs && 0 <= i * bs) by (nonlinear_arith)
        requires
            0 <= i < s.blocks,
            bs > 0,
    ;
    lemma_anchors_same(x, z, p, bs as int);
    if a == ag {
        lemma_segs_hit(x.d, g.segs, bs, dest, 0, j);
        let q = dest + local * bs;
        let t = target(s, bs, dest);
        assert(t + i * bs == q) by (nonlinear_arith)
            requires
                t == dest + s.ag_block * bs,
                q == dest + local * bs,
                i == local - s.ag_block,
        ;
        let n = s.blocks * bs;
        assert(d1.bytes.subrange(q, q + bs) =~= x.d.bytes.subrange(p, p + bs)) by {
            assert forall|k: int| 0 <= k < bs implies #[trigger] d1.bytes.subrange(q, q + bs)[k]
                == x.d.bytes.subrange(p, p + bs)[k] by {
                assert(d1.bytes.subrange(t, t + n)[i * bs + k] == x.d.bytes.subrange(
                    s.dev_offset as int,
                    s.dev_offset + n,
                )[i * bs + k]);
            }
        }
        assert(local * bs + bs <= g.length * bs && 0 <= local * bs) by (nonlinear_arith)
            requires
                0 <= local < g.length,
                bs > 0,
        ;
        lemma_free_off_anchors(x, ag as int, dest as int, g.length * bs, q, bs as int);
        lemma_anchors_same(x, z, q, bs as int);
        lemma_stored_frame(z, q, bs as int);
        let w = AgSegment { ag_block: 0, blocks: g.length, dev_offset: dest };
        assert(gs1[a as int].segs =~= seq![w]);
        assert(agmap::find_seg(seq![w], local) == Some(w));
        assert(vol::place(gs1, bs, blk) == Ok::<u64, FsError>(q as u64));
    } else {
        assert(gs1[a as int] == gs[a as int]);
        assert(vol::place(gs1, bs, blk) == vol::place(gs, bs, blk));
        assert(!resize::seg_meets(gs[a as int].segs[j], bs, dest as int, g.length * bs));
        assert forall|k: int| 0 <= k < g.segs.len() implies journal_laws::apart(
            p,
            bs as int,
            target(#[trigger] g.segs[k], bs, dest),
            g.segs[k].blocks * bs,
        ) by {
            lemma_products(g.segs[k], bs);
            lemma_target_inside(g, bs, dest, k);
        }
        lemma_segs_frame(x.d, g.segs, bs, dest, 0, p, bs as int);
        lemma_stored_frame(z, p, bs as int);
    }
}

/// An inode slot that lies in one block is read from that block.
proof fn lemma_slot_in_block(v: Vol, isz: u16, ino: u64)
    requires
        v.bs > 0,
        v.bytes.len() <= u64::MAX,
        fs::inode_spot(v.bs, isz, ino).1 + 256 <= v.bs,
        vol::rd0(v, fs::inode_spot(v.bs, isz, ino).0) is Ok,
    ensures
        fs::slot_bytes(v, isz, ino) == Ok::<Seq<u8>, FsError>(
            vol::rd0(v, fs::inode_spot(v.bs, isz, ino).0)->Ok_0.subrange(
                fs::inode_spot(v.bs, isz, ino).1,
                fs::inode_spot(v.bs, isz, ino).1 + 256,
            ),
        ),
{
    let (blk, o) = fs::inode_spot(v.bs, isz, ino);
    let p = vol::place(v.groups, v.bs, blk)->Ok_0 as int;
    let b = vol::rd0(v, blk)->Ok_0;
    assert(o >= 0) by (nonlinear_arith)
        requires
            o == (fmt::addr_local(ino) * isz) % (v.bs as int),
            v.bs > 0,
    ;
    assert(b.subrange(o, o + 256) =~= v.bytes.subrange(p + o, p + o + 256));
}

/// Moving a group keeps every inode number valid.
pub proof fn law_moving_keeps_every_inode(x: Img, ag: u32, dest: u64, ino: u64)
    requires
        x.sb.blocksize > 0,
        x.d.bytes.len() <= u64::MAX,
        anchored(x),
        ag < x.m.entries.len() ==> inside(x.m.entries[ag as int]) && move_safe(
            x.m.entries[ag as int].segs,
            x.sb.blocksize,
            dest,
        ),
        resize::relocated(x, ag, dest).1 is Ok,
        ({
            let bs = x.sb.blocksize;
            let v = Vol { bytes: x.d.bytes, groups: x.m.entries, bs };
            let (blk, o) = fs::inode_spot(bs, x.sb.inodesize, ino);
            &&& o + 256 <= bs
            &&& vol::rd0(v, blk) is Ok
            &&& off_anchors(x, vol::place(x.m.entries, bs, blk)->Ok_0 as int, bs as int)
        }),
    ensures
        ({
            let y = resize::relocated(x, ag, dest).0;
            fs::inode_of(
                Vol { bytes: y.d.bytes, groups: y.m.entries, bs: y.sb.blocksize },
                y.sb.inodesize,
                ino,
            ) == fs::inode_of(
                Vol { bytes: x.d.bytes, groups: x.m.entries, bs: x.sb.blocksize },
                x.sb.inodesize,
                ino,
            )
        }),
{
    let bs = x.sb.blocksize;
    let isz = x.sb.inodesize;
    let (blk, o) = fs::inode_spot(bs, isz, ino);
    let y = resize::relocated(x, ag, dest).0;
    law_moving_keeps_every_block(x, ag, dest, blk);
    lemma_moved_super(x, ag, dest);
    lemma_slot_in_block(Vol { bytes: x.d.bytes, groups: x.m.entries, bs }, isz, ino);
    lemma_slot_in_block(Vol { bytes: y.d.bytes, groups: y.m.entries, bs }, isz, ino);
}

/// A move keeps the device's size and the sizes in the superblock.
pub proof fn lemma_moved_super(x: Img, ag: u32, dest: u64)
    requires
        x.sb.blocksize > 0,
        x.d.bytes.len() <= u64::MAX,
        anchored(x),
        ag < x.m.entries.len() ==> move_safe(
            x.m.entries[ag as int].segs,
            x.sb.blocksize,
            dest,
        ),
        resize::relocated(x, ag, dest).1 is Ok,
    ensures
        resize::relocated(x, ag, dest).0.d.bytes.len() == x.d.bytes.len(),
        resize::relocated(x, ag, dest).0.sb.blocksize == x.sb.blocksize,
        resize::relocated(x, ag, dest).0.sb.inodesize == x.sb.inodesize,
{
    let gs = x.m.entries;
    let g = gs[ag as int];
    let bs = x.sb.blocksize;
    let (d1, r1) = resize::segs_copied(x.d, g.segs, bs, dest, 0);
    lemma_segs_len(x.d, g.segs, bs, dest, 0);
    let z = Img {
        d: device::dev_sync(d1),
        m: Groups {
            entries: gs.update(ag as int, resize::whole_group(g.flags, g.length, dest)),
            ..x.m
        },
        ..x
    };
    lemma_map_stored(z);
}

pub proof fn lemma_segs_len(d: Dev, segs: Seq<AgSegment>, bs: u32, dest: u64, k: int)
    requires
        bs > 0,
        0 <= k <= segs.len(),
        move_safe(segs, bs, dest),
        resize::segs_copied(d, segs, bs, dest, k).1 is Ok,
    ensures
        resize::segs_copied(d, segs, bs, dest, k).0.bytes.len() == d.bytes.len(),
    decreases segs.len() - k,
{
    if k < segs.len() {
        let s = segs[k];
        lemma_products(s, bs);
        let (d1, r1) = resize::copied(
            d,
            s.dev_offset,
            dest + s.ag_block * bs,
            s.blocks * bs,
            0,
            256 * bs,
        );
        lemma_copied(d, s.dev_offset, target(s, bs, dest), s.blocks * bs, 0, 256 * bs);
        lemma_segs_len(d1, segs, bs, dest, k + 1);
    }
}

// --- growing ------------------------------------------------------------------

/// Adding a group keeps every block that could be read before, but for those
/// of the superblock, its backup and the AG map.
pub proof fn law_new_group_keeps_every_block(x: Img, off: u64, bytes: u64, blk: u64)
    requires
        x.sb.blocksize >= 512,
        anchored(x),
        resize::group_added(x, off, bytes).1 is Ok,
        ({
            let v = Vol { bytes: x.d.bytes, groups: x.m.entries, bs: x.sb.blocksize };
            &&& vol::rd0(v, blk) is Ok
            &&& off_anchors(
                x,
                vol::place(x.m.entries, x.sb.blocksize, blk)->Ok_0 as int,
                x.sb.blocksize as int,
            )
        }),
    ensures
        ({
            let y = resize::group_added(x, off, bytes).0;
            vol::rd0(
                Vol { bytes: y.d.bytes, groups: y.m.entries, bs: y.sb.blocksize },
                blk,
            ) == vol::rd0(
                Vol { bytes: x.d.bytes, groups: x.m.entries, bs: x.sb.blocksize },
                blk,
            )
        }),
{
    let bs = x.sb.blocksize;
    let gs = x.m.entries;
    let len = (bytes as int / bs as int % 0x1_0000_0000) as u32;
    let free = resize::new_free(len, bs);
    let ag = x.sb.next_ag;
    let tb = header::table_blocks(len, bs);
    let items = seq![
        (Ok::<u64, FsError>(off), fs::header_block(resize::new_header(ag, len, bs), bs)),
        (Ok::<u64, FsError>((off + bs) as u64), resize::base_table(len, bs, 1 + tb)),
    ];
    let (d1, r1) = device::dev_writes(x.d, items);
    let gs1 = gs.push(resize::whole_group(crate::fmt::AGF_PRESENT, len, off));
    let z = Img {
        d: device::dev_sync(d1),
        sb: Superblock {
            next_ag: (ag + 1) as u32,
            free_blocks: (x.sb.free_blocks + free) as u64,
            rsvd_blocks: (x.sb.rsvd_blocks + (len - free)) as u64,
            ..x.sb
        },
        m: Groups { entries: gs1, ..x.m },
    };
    lemma_map_stored(z);
    let p = vol::place(gs, bs, blk)->Ok_0 as int;
    let a = fmt::addr_ag(blk) as int;
    let local = fmt::addr_local(blk);
    let s = agmap::find_seg(gs[a].segs, local)->0;
    lemma_find_seg(gs[a].segs, local);
    let j = choose|j: int| 0 <= j < gs[a].segs.len() && #[trigger] gs[a].segs[j] == s;
    let i = (local - s.ag_block) as int;
    assert(i * bs + bs <= s.blocks * bs && 0 <= i * bs) by (nonlinear_arith)
        requires
            0 <= i < s.blocks,
            bs > 0,
    ;
    assert(gs1[a] == gs[a]);
    assert(!resize::seg_meets(gs[a].segs[j], bs, off as int, bytes as int));
    lemma_new_group_size(len, bs, bytes as int);
    lemma_header_block_len(resize::new_header(ag, len, bs), bs);
    assert forall|k: int| 0 <= k < items.len() implies ((#[trigger] items[k]).0 matches Ok(q)
        ==> journal_laws::apart(p, bs as int, q as int, items[k].1.len() as int)) by {}
    journal_laws::lemma_writes_frame(x.d, items, p, bs as int);
    assert(off_anchors(z, p, bs as int)) by {
        assert(gs1[0] == gs[0]);
    }
    lemma_stored_frame(z, p, bs as int);
}

pub proof fn lemma_header_block_len(h: crate::header::AgHeader, bs: u32)
    requires
        bs >= 512,
    ensures
        fs::header_block(h, bs).len() == bs,
{
    header::law_header_round_trip(h, Seq::empty());
}

/// Header and table of a new group lie in its region.
pub proof fn lemma_new_group_size(len: u32, bs: u32, bytes: int)
    requires
        bs >= 512,
        len >= 1024,
        bytes >= 0,
        len == (bytes / bs as int % 0x1_0000_0000) as u32,
    ensures
        resize::base_table(len, bs, 1 + header::table_blocks(len, bs)).len()
            == header::table_blocks(len, bs) * bs,
        bs + header::table_blocks(len, bs) * bs <= bytes,
{
    resize::lemma_table_small(len, bs);
    let tb = header::table_blocks(len, bs);
    let cells = header::cell_count(len);
    let used = 1 + tb;
    fmt::lemma_ceil_div(used, 256);
    fmt::lemma_ceil_div(len as int, 256);
    assert(0 <= tb * bs) by (nonlinear_arith)
        requires
            tb >= 0,
    ;
    let z = fmt::zeros((tb * bs) as nat);
    resize::lemma_cells_filled(z, 0, fmt::ceil_div(used, 256), fmt::CELL_RSVD, cells - 1);
    let q = bytes / bs as int;
    assert(q * bs <= bytes) by (nonlinear_arith)
        requires
            q == bytes / (bs as int),
            bs > 0,
    ;
    assert(q >= 0) by (nonlinear_arith)
        requires
            q == bytes / (bs as int),
            bs > 0,
            bytes >= 0,
    ;
    assert(len <= q);
    assert(bs + tb * bs <= q * bs) by (nonlinear_arith)
        requires
            1 + tb <= q,
            bs > 0,
    ;
}

/// The region of a new group is off the superblock, its backup and the AG map.
proof fn lemma_new_region(x: Img, off: int, bytes: int, p: int, n: int)
    requires
        anchored(x),
        !resize::region_taken(x.m.entries, x.sb.blocksize, off, bytes, -1),
        off <= p,
        0 < n,
        p + n <= off + bytes,
    ensures
        off_anchors(x, p, n),
{
    let gs = x.m.entries;
    let bs = x.sb.blocksize;
    let a = x.sb.agmap_offset as int;
    let l = x.sb.agmap_length as int;
    lemma_held_apart(gs, bs, -1, off, bytes, 0, 512, p, n);
    lemma_held_apart(gs, bs, -1, off, bytes, a, l, p, n);
    lemma_held_apart(gs, bs, -1, off, bytes, a + l, l, p, n);
    if let Some(Ok(q)) = fs::backup_place(gs, bs) {
        lemma_held_apart(gs, bs, -1, off, bytes, q as int, 512, p, n);
    }
}

/// A group that was added has the header that was planned, and sound tables.
pub proof fn law_new_group_has_sound_tables(x: Img, off: u64, bytes: u64)
    requires
        x.sb.blocksize >= 512,
        anchored(x),
        x.d.bytes.len() <= u64::MAX,
        x.sb.next_ag == x.m.entries.len(),
        resize::group_added(x, off, bytes).1 is Ok,
    ensures
        ({
            let ag = x.sb.next_ag;
            let y = resize::group_added(x, off, bytes).0;
            let v = Vol { bytes: y.d.bytes, groups: y.m.entries, bs: y.sb.blocksize };
            let len = (bytes as int / x.sb.blocksize as int % 0x1_0000_0000) as u32;
            let hdr = resize::new_header(ag, len, v.bs);
            &&& fs::header_of(v, Map::empty(), ag) == Ok::<header::AgHeader, FsError>(hdr)
            &&& tables::sound(v, Map::empty(), hdr)
            &&& new_tables::shows(
                v,
                hdr,
                resize::base_table(len, v.bs, 1 + header::table_blocks(len, v.bs)),
            )
        }),
{
    let bs = x.sb.blocksize;
    let gs = x.m.entries;
    let len = (bytes as int / bs as int % 0x1_0000_0000) as u32;
    let free = resize::new_free(len, bs);
    let ag = x.sb.next_ag;
    let tb = header::table_blocks(len, bs);
    let hdr = resize::new_header(ag, len, bs);
    let hb = fs::header_block(hdr, bs);
    let tbl = resize::base_table(len, bs, 1 + tb);
    let items = seq![
        (Ok::<u64, FsError>(off), hb),
        (Ok::<u64, FsError>((off + bs) as u64), tbl),
    ];
    let (d1, r1) = device::dev_writes(x.d, items);
    let gs1 = gs.push(resize::whole_group(crate::fmt::AGF_PRESENT, len, off));
    let z = Img {
        d: device::dev_sync(d1),
        sb: Superblock {
            next_ag: (ag + 1) as u32,
            free_blocks: (x.sb.free_blocks + free) as u64,
            rsvd_blocks: (x.sb.rsvd_blocks + (len - free)) as u64,
            ..x.sb
        },
        m: Groups { entries: gs1, ..x.m },
    };
    let y = resize::group_added(x, off, bytes).0;
    let v = Vol { bytes: y.d.bytes, groups: y.m.entries, bs };
    lemma_map_stored(z);
    lemma_new_group_size(len, bs, bytes as int);
    lemma_header_block_len(hdr, bs);
    resize::lemma_table_small(len, bs);
    assert(0 < tb * bs) by (nonlinear_arith)
        requires
            tb >= 1,
            bs > 0,
    ;
    journal_laws::lemma_writes_hit(x.d, items, 0);
    journal_laws::lemma_writes_hit(x.d, items, 1);
    journal_laws::lemma_writes_len(x.d, items);
    assert(gs1[0] == gs[0]);
    lemma_new_region(x, off as int, bytes as int, off as int, bs as int);
    lemma_new_region(x, off as int, bytes as int, off + bs, tb * bs);
    lemma_stored_frame(z, off as int, bs as int);
    lemma_stored_frame(z, off + bs, tb * bs);
    lemma_whole_place(v, ag, len, off, 0);
    assert(0int * bs == 0) by (nonlinear_arith);
    new_tables::lemma_header_reads(v, hdr);
    assert forall|j: int|
        0 <= j < header::table_blocks(hdr.length, v.bs) implies #[trigger] vol::rd0(
        v,
        fmt::addr_of(hdr.ag_num, (hdr.alloc_root + j) as u32),
    ) == Ok::<Seq<u8>, FsError>(tbl.subrange(j * v.bs, j * v.bs + v.bs)) by {
        mkfs_laws::lemma_part_of(v.bytes, off + bs, tbl, bs as int, j, tb);
        assert((1 + j) * bs == bs + j * bs) by (nonlinear_arith);
        lemma_whole_place(v, ag, len, off, (1 + j) as u32);
    }
    new_tables::lemma_new_group_sound(v, ag, len);
}

/// The place of a block of a group in one piece.
proof fn lemma_whole_place(v: Vol, ag: u32, len: u32, off: u64, local: u32)
    requires
        ag < v.groups.len(),
        v.groups[ag as int] == resize::whole_group(crate::fmt::AGF_PRESENT, len, off),
        local < len,
        v.bytes.len() <= u64::MAX,
        off + local * v.bs + v.bs <= v.bytes.len(),
    ensures
        vol::rd0(v, fmt::addr_of(ag, local)) == Ok::<Seq<u8>, FsError>(
            v.bytes.subrange(off + local * v.bs, off + local * v.bs + v.bs),
        ),
{
    let w = AgSegment { ag_block: 0, blocks: len, dev_offset: off };
    fmt::law_address_halves(ag, local, 0);
    assert(agmap::find_seg(seq![w], local) == Some(w));
    assert(0 <= local * v.bs) by (nonlinear_arith)
        requires
            local >= 0,
    ;
}

} // verus!
