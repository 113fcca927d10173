//! What shrinking promises: groups that hold anything move out of the way with all
//! their blocks, and every block address stays valid.

use crate::agmap::{Group, Groups};
use crate::fmt::AGF_RETIRED;
use crate::resize::Img;
use crate::superblock::Superblock;
use crate::vol::Vol;
use vstd::prelude::*;

use crate::agmap;
use crate::device;
use crate::fmt;
use crate::fs;
use crate::journal_laws;
use crate::resize;
use crate::resize_laws;
use crate::vol;

verus! {

/// The volume as its blocks are read.
pub open spec fn vol_of(x: Img) -> Vol {
    Vol { bytes: x.d.bytes, groups: x.m.entries, bs: x.sb.blocksize }
}

/// The segments of a group map different blocks of it, and blocks that it has.
pub open spec fn well_cut(g: Group) -> bool {
    &&& g.length > 0
    &&& resize_laws::inside(g)
    &&& forall|j: int, k: int|
        #![trigger g.segs[j], g.segs[k]]
        0 <= j < k < g.segs.len() ==> journal_laws::apart(
            g.segs[j].ag_block as int,
            g.segs[j].blocks as int,
            g.segs[k].ag_block as int,
            g.segs[k].blocks as int,
        )
}

/// No segment of another group meets one of the first group.
pub open spec fn clear_of_first(gs: Seq<Group>, bs: u32) -> bool {
    forall|i: int, j: int, k: int|
        #![trigger gs[i].segs[j], gs[0].segs[k]]
        0 < i < gs.len() && 0 <= j < gs[i].segs.len() && 0 <= k < gs[0].segs.len()
            ==> journal_laws::apart(
            gs[i].segs[j].dev_offset as int,
            gs[i].segs[j].blocks * bs,
            gs[0].segs[k].dev_offset as int,
            gs[0].segs[k].blocks * bs,
        )
}

/// A volume whose groups are well laid out: the anchors are in the first group, the
/// others stay clear of it, and each is well cut.
pub open spec fn laid_out(x: Img) -> bool {
    &&& x.sb.blocksize > 0
    &&& x.d.bytes.len() <= u64::MAX
    &&& x.m.entries.len() <= u32::MAX
    &&& resize_laws::anchored(x)
    &&& clear_of_first(x.m.entries, x.sb.blocksize)
    &&& forall|i: int| 0 <= i < x.m.entries.len() ==> well_cut(#[trigger] x.m.entries[i])
}

/// Block `blk` can be read, and is none of those of superblock, backup and AG map.
pub open spec fn readable(x: Img, blk: u64) -> bool {
    &&& vol::rd0(vol_of(x), blk) is Ok
    &&& resize_laws::off_anchors(
        x,
        vol::place(x.m.entries, x.sb.blocksize, blk)->Ok_0 as int,
        x.sb.blocksize as int,
    )
}

/// Block `blk` reads the same in both.
pub open spec fn kept(x: Img, y: Img, blk: u64) -> bool {
    &&& vol::rd0(vol_of(y), blk) == vol::rd0(vol_of(x), blk)
    &&& readable(y, blk)
}

/// Group `a` is there to stay when everything past `limit` has to go: it ends
/// before, or it holds something.
pub open spec fn to_stay(x: Img, a: u32, limit: int) -> bool {
    ||| !resize::reaches_past(x.m.entries[a as int], x.sb.blocksize, limit)
    ||| (fs::header_of(vol_of(x), Map::empty(), a) matches Ok(h) && h.full_blocks != 0)
}

/// Where the anchors are is a matter of the sizes and the first group.
pub open spec fn same_anchors(x: Img, y: Img) -> bool {
    &&& y.sb.blocksize == x.sb.blocksize
    &&& y.sb.agmap_offset == x.sb.agmap_offset
    &&& y.sb.agmap_length == x.sb.agmap_length
    &&& y.sb.next_ag == x.sb.next_ag
    &&& y.d.bytes.len() == x.d.bytes.len()
    &&& y.m.entries.len() == x.m.entries.len()
    &&& y.m.entries.len() > 0
    &&& y.m.entries[0] == x.m.entries[0]
}

proof fn lemma_same_anchors(x: Img, y: Img, p: int, n: int)
    requires
        same_anchors(x, y),
    ensures
        resize_laws::off_anchors(y, p, n) == resize_laws::off_anchors(x, p, n),
        resize_laws::anchored(x) ==> resize_laws::anchored(y),
{
    let a = x.m.entries;
    let b = y.m.entries;
    let bs = x.sb.blocksize;
    assert forall|q: int, m: int| resize_laws::held_by_first(a, bs, q, m)
        == #[trigger] resize_laws::held_by_first(b, bs, q, m) by {
        if resize_laws::held_by_first(a, bs, q, m) {
            let j = choose|j: int|
                0 <= j < a[0].segs.len() && (#[trigger] a[0].segs[j]).dev_offset <= q && q + m
                    <= resize::seg_end(a[0].segs[j], bs);
            assert(b[0].segs[j].dev_offset <= q);
        }
        if resize_laws::held_by_first(b, bs, q, m) {
            let j = choose|j: int|
                0 <= j < b[0].segs.len() && (#[trigger] b[0].segs[j]).dev_offset <= q && q + m
                    <= resize::seg_end(b[0].segs[j], bs);
            assert(a[0].segs[j].dev_offset <= q);
        }
    }
    assert(fs::backup_place(a, bs) == fs::backup_place(b, bs));
}

/// A block of another group than the first is off the anchors.
proof fn lemma_clear(x: Img, blk: u64)
    requires
        laid_out(x),
        fmt::addr_ag(blk) != 0,
        vol::rd0(vol_of(x), blk) is Ok,
    ensures
        readable(x, blk),
{
    let gs = x.m.entries;
    let bs = x.sb.blocksize;
    let p = vol::place(gs, bs, blk)->Ok_0 as int;
    let a = fmt::addr_ag(blk) as int;
    let local = fmt::addr_local(blk);
    let s = agmap::find_seg(gs[a].segs, local)->0;
    resize_laws::lemma_find_seg(gs[a].segs, local);
    let j = choose|j: int| 0 <= j < gs[a].segs.len() && #[trigger] gs[a].segs[j] == s;
    let i = (local - s.ag_block) as int;
    assert(i * bs + bs <= s.blocks * bs && 0 <= i * bs) by (nonlinear_arith)
        requires
            0 <= i < s.blocks,
            bs > 0,
    ;
    lemma_held_clear(gs, bs, a, j, 0, 512, p, bs as int);
    if let Some(Ok(q)) = fs::backup_place(gs, bs) {
        lemma_held_clear(gs, bs, a, j, q as int, 512, p, bs as int);
    }
    let o = x.sb.agmap_offset as int;
    let l = x.sb.agmap_length as int;
    lemma_held_clear(gs, bs, a, j, o, l, p, bs as int);
    lemma_held_clear(gs, bs, a, j, o + l, l, p, bs as int);
}

proof fn lemma_held_clear(
    gs: Seq<Group>,
    bs: u32,
    a: int,
    j: int,
    q: int,
    m: int,
    p: int,
    n: int,
)
    requires
        clear_of_first(gs, bs),
        0 < a < gs.len(),
        0 <= j < gs[a].segs.len(),
        resize_laws::held_by_first(gs, bs, q, m),
        gs[a].segs[j].dev_offset <= p,
        0 < n,
        p + n <= resize::seg_end(gs[a].segs[j], bs),
    ensures
        journal_laws::apart(p, n, q, m),
{
    let k = choose|k: int|
        0 <= k < gs[0].segs.len() && (#[trigger] gs[0].segs[k]).dev_offset <= q && q + m
            <= resize::seg_end(gs[0].segs[k], bs);
    assert(journal_laws::apart(
        gs[a].segs[j].dev_offset as int,
        gs[a].segs[j].blocks * bs,
        gs[0].segs[k].dev_offset as int,
        gs[0].segs[k].blocks * bs,
    ));
}

/// Moving a group to a region that meets no segment, its own included, is safe.
proof fn lemma_move_safe(gs: Seq<Group>, bs: u32, ag: int, dest: u64)
    requires
        0 <= ag < gs.len(),
        well_cut(gs[ag]),
        !resize::region_taken(gs, bs, dest as int, gs[ag].length * bs, -1),
    ensures
        resize_laws::move_safe(gs[ag].segs, bs, dest),
        !resize::region_taken(gs, bs, dest as int, gs[ag].length * bs, ag),
{
    let g = gs[ag];
    assert forall|k: int| 0 <= k < g.segs.len() implies dest <= resize_laws::target(
        #[trigger] g.segs[k],
        bs,
        dest,
    ) && resize_laws::target(g.segs[k], bs, dest) + g.segs[k].blocks * bs <= dest + g.length * bs
        && g.segs[k].blocks * bs >= 0 by {
        let s = g.segs[k];
        assert(0 <= s.ag_block * bs && s.ag_block * bs + s.blocks * bs <= g.length * bs
            && s.blocks * bs >= 0) by (nonlinear_arith)
            requires
                s.ag_block + s.blocks <= g.length,
        ;
    }
    assert forall|k: int| 0 <= k < g.segs.len() implies !(#[trigger] resize::seg_meets(
        g.segs[k],
        bs,
        dest as int,
        g.length * bs,
    )) by {
        assert(!resize::seg_meets(gs[ag].segs[k], bs, dest as int, g.length * bs));
    }
    assert forall|k: int| 0 <= k < g.segs.len() implies resize_laws::copy_safe(
        (#[trigger] g.segs[k]).dev_offset as int,
        resize_laws::target(g.segs[k], bs, dest),
        g.segs[k].blocks * bs,
    ) by {
        assert(!resize::seg_meets(g.segs[k], bs, dest as int, g.length * bs));
    }
    assert forall|j: int, k: int|
        #![trigger g.segs[j], g.segs[k]]
        0 <= j < k < g.segs.len() implies journal_laws::apart(
        resize_laws::target(g.segs[j], bs, dest),
        g.segs[j].blocks * bs,
        g.segs[k].dev_offset as int,
        g.segs[k].blocks * bs,
    ) && journal_laws::apart(
        resize_laws::target(g.segs[j], bs, dest),
        g.segs[j].blocks * bs,
        resize_laws::target(g.segs[k], bs, dest),
        g.segs[k].blocks * bs,
    ) by {
        let a = g.segs[j];
        let b = g.segs[k];
        assert(!resize::seg_meets(b, bs, dest as int, g.length * bs));
        assert(dest <= resize_laws::target(a, bs, dest));
        assert(a.ag_block * bs + a.blocks * bs <= b.ag_block * bs || b.ag_block * bs + b.blocks
            * bs <= a.ag_block * bs) by (nonlinear_arith)
            requires
                a.ag_block + a.blocks <= b.ag_block || b.ag_block + b.blocks <= a.ag_block,
        ;
    }
}

/// Retiring a group: only its entry changes, and blocks of the others are kept.
proof fn lemma_retired(x: Img, ag: u32, blk: u64)
    requires
        laid_out(x),
        resize::retired(x, ag).1 is Ok,
    ensures
        ({
            let y = resize::retired(x, ag).0;
            &&& same_anchors(x, y)
            &&& laid_out(y)
            &&& forall|i: int|
                0 <= i < x.m.entries.len() && i != ag ==> #[trigger] y.m.entries[i]
                    == x.m.entries[i]
            &&& readable(x, blk) && fmt::addr_ag(blk) != ag ==> kept(x, y, blk)
        }),
{
    let gs = x.m.entries;
    let bs = x.sb.blocksize;
    let h = fs::header_of(vol_of(x), Map::empty(), ag)->Ok_0;
    let gs1 = gs.update(
        ag as int,
        Group { flags: AGF_RETIRED, segs: Seq::empty(), ..gs[ag as int] },
    );
    let z = Img {
        sb: Superblock {
            free_blocks: (x.sb.free_blocks - h.free_blocks) as u64,
            rsvd_blocks: (x.sb.rsvd_blocks - h.rsvd_blocks) as u64,
            ..x.sb
        },
        m: Groups { entries: gs1, ..x.m },
        ..x
    };
    let y = resize::retired(x, ag).0;
    resize_laws::lemma_map_stored(z);
    assert(y == resize::map_stored(z).0);
    assert(same_anchors(x, y));
    lemma_same_anchors(x, y, 0, 0);
    assert forall|i: int| 0 <= i < y.m.entries.len() implies well_cut(#[trigger] y.m.entries[i]) by {
        assert(well_cut(gs[i]));
    }
    assert(clear_of_first(y.m.entries, bs)) by {
        assert forall|i: int, j: int, k: int|
            #![trigger gs1[i].segs[j], gs1[0].segs[k]]
            0 < i < gs1.len() && 0 <= j < gs1[i].segs.len() && 0 <= k
                < gs1[0].segs.len() implies journal_laws::apart(
            gs1[i].segs[j].dev_offset as int,
            gs1[i].segs[j].blocks * bs,
            gs1[0].segs[k].dev_offset as int,
            gs1[0].segs[k].blocks * bs,
        ) by {
            assert(gs1[i].segs[j] == gs[i].segs[j]);
            assert(gs1[0].segs[k] == gs[0].segs[k]);
        }
    }
    if readable(x, blk) && fmt::addr_ag(blk) != ag {
        let p = vol::place(gs, bs, blk)->Ok_0 as int;
        let a = fmt::addr_ag(blk) as int;
        assert(gs1[a] == gs[a]);
        assert(vol::place(gs1, bs, blk) == vol::place(gs, bs, blk));
        assert(same_anchors(x, z));
        lemma_same_anchors(x, z, p, bs as int);
        lemma_same_anchors(x, y, p, bs as int);
        resize_laws::lemma_stored_frame(z, p, bs as int);
    }
}

/// Moving a group to a free region: only its entry changes, and every block is
/// kept.
proof fn lemma_moved(x: Img, ag: u32, dest: u64, blk: u64)
    requires
        laid_out(x),
        resize::relocated(x, ag, dest).1 is Ok,
        !resize::region_taken(
            x.m.entries,
            x.sb.blocksize,
            dest as int,
            x.m.entries[ag as int].length * x.sb.blocksize,
            -1,
        ),
    ensures
        ({
            let y = resize::relocated(x, ag, dest).0;
            &&& same_anchors(x, y)
            &&& laid_out(y)
            &&& forall|i: int|
                0 <= i < x.m.entries.len() && i != ag ==> #[trigger] y.m.entries[i]
                    == x.m.entries[i]
            &&& y.m.entries[ag as int] == resize::whole_group(
                x.m.entries[ag as int].flags,
                x.m.entries[ag as int].length,
                dest,
            )
            &&& y.sb == Superblock { gen: y.sb.gen, ..x.sb }
            &&& readable(x, blk) ==> kept(x, y, blk)
        }),
{
    let gs = x.m.entries;
    let bs = x.sb.blocksize;
    let g = gs[ag as int];
    let y = resize::relocated(x, ag, dest).0;
    let gs1 = gs.update(ag as int, resize::whole_group(g.flags, g.length, dest));
    assert(ag != 0);
    assert(well_cut(g));
    lemma_move_safe(gs, bs, ag as int, dest);
    resize_laws::lemma_moved_super(x, ag, dest);
    resize_laws::law_moving_keeps_ids(x, ag, dest);
    let (d1, r1) = resize::segs_copied(x.d, g.segs, bs, dest, 0);
    let z = Img { d: device::dev_sync(d1), m: Groups { entries: gs1, ..x.m }, ..x };
    resize_laws::lemma_map_stored(z);
    assert(y == resize::map_stored(z).0);
    assert(y.m.entries == gs1);
    assert(same_anchors(x, y));
    lemma_same_anchors(x, y, 0, 0);
    assert(g.length * bs > 0) by (nonlinear_arith)
        requires
            g.length > 0,
            bs > 0,
    ;
    assert forall|i: int| 0 <= i < gs1.len() implies well_cut(#[trigger] gs1[i]) by {
        assert(well_cut(gs[i]));
    }
    assert(clear_of_first(gs1, bs)) by {
        assert forall|i: int, j: int, k: int|
            #![trigger gs1[i].segs[j], gs1[0].segs[k]]
            0 < i < gs1.len() && 0 <= j < gs1[i].segs.len() && 0 <= k
                < gs1[0].segs.len() implies journal_laws::apart(
            gs1[i].segs[j].dev_offset as int,
            gs1[i].segs[j].blocks * bs,
            gs1[0].segs[k].dev_offset as int,
            gs1[0].segs[k].blocks * bs,
        ) by {
            assert(gs1[0].segs[k] == gs[0].segs[k]);
            if i != ag {
                assert(gs1[i].segs[j] == gs[i].segs[j]);
            } else {
                assert(!resize::seg_meets(gs[0].segs[k], bs, dest as int, g.length * bs));
            }
        }
    }
    if readable(x, blk) {
        resize_laws::law_moving_keeps_every_block(x, ag, dest, blk);
        if fmt::addr_ag(blk) == ag {
            lemma_clear(y, blk);
        } else {
            let p = vol::place(gs, bs, blk)->Ok_0 as int;
            let a = fmt::addr_ag(blk) as int;
            assert(gs1[a] == gs[a]);
            assert(vol::place(gs1, bs, blk) == vol::place(gs, bs, blk));
            lemma_same_anchors(x, y, p, bs as int);
        }
    }
}

/// Retiring a group keeps every block of the others, and their entries.
pub proof fn law_retiring_keeps_every_block(x: Img, ag: u32, blk: u64)
    requires
        laid_out(x),
        resize::retired(x, ag).1 is Ok,
        readable(x, blk),
        fmt::addr_ag(blk) != ag,
    ensures
        ({
            let y = resize::retired(x, ag).0;
            &&& vol::rd0(vol_of(y), blk) == vol::rd0(vol_of(x), blk)
            &&& laid_out(y)
            &&& forall|i: int|
                0 <= i < x.m.entries.len() && i != ag ==> #[trigger] y.m.entries[i]
                    == x.m.entries[i]
        }),
{
    lemma_retired(x, ag, blk);
}

/// Moving a group to a region that meets no segment, its own included: the group
/// may move and is not the first, it is in one piece there, no other entry changes
/// and no counter, and every block reads as before.
pub proof fn law_moving_changes_the_map_only(x: Img, ag: u32, dest: u64, blk: u64)
    requires
        laid_out(x),
        resize::relocated(x, ag, dest).1 is Ok,
        !resize::region_taken(
            x.m.entries,
            x.sb.blocksize,
            dest as int,
            x.m.entries[ag as int].length * x.sb.blocksize,
            -1,
        ),
        readable(x, blk),
    ensures
        ({
            let y = resize::relocated(x, ag, dest).0;
            let g = x.m.entries[ag as int];
            &&& 0 < ag < x.m.entries.len()
            &&& agmap::is_present(g.flags)
            &&& g.flags / 2 % 2 == 0
            &&& y.m.entries[ag as int] == resize::whole_group(g.flags, g.length, dest)
            &&& forall|i: int|
                0 <= i < x.m.entries.len() && i != ag ==> #[trigger] y.m.entries[i]
                    == x.m.entries[i]
            &&& y.sb == Superblock { gen: y.sb.gen, ..x.sb }
            &&& laid_out(y)
            &&& vol::rd0(vol_of(y), blk) == vol::rd0(vol_of(x), blk)
        }),
{
    lemma_moved(x, ag, dest, blk);
}

/// The group that is to go.
proof fn lemma_first_past(gs: Seq<Group>, bs: u32, limit: int, i: int)
    requires
        0 <= i,
    ensures
        resize::first_past(gs, bs, limit, i) matches Some(k) ==> i <= k < gs.len()
            && agmap::is_present(gs[k].flags) && resize::reaches_past(gs[k], bs, limit),
    decreases gs.len() - i,
{
    if i < gs.len() && !(agmap::is_present(gs[i].flags) && resize::reaches_past(
        gs[i],
        bs,
        limit,
    )) {
        lemma_first_past(gs, bs, limit, i + 1);
    }
}

/// One group out of the way: blocks of groups that are to stay are kept, these are
/// still to stay, and entries of groups that end before the limit do not change.
#[verifier::rlimit(40)]
proof fn lemma_below(x: Img, ag: u32, limit: u64, blk: u64)
    requires
        laid_out(x),
        resize::first_past(x.m.entries, x.sb.blocksize, limit as int, 0) == Some(ag as int),
        resize::moved_below(x, ag, limit).1 is Ok,
        readable(x, blk),
        to_stay(x, fmt::addr_ag(blk), limit as int),
    ensures
        ({
            let y = resize::moved_below(x, ag, limit).0;
            &&& same_anchors(x, y)
            &&& laid_out(y)
            &&& kept(x, y, blk)
            &&& to_stay(y, fmt::addr_ag(blk), limit as int)
            &&& forall|i: int|
                0 <= i < x.m.entries.len() && i != ag ==> #[trigger] y.m.entries[i]
                    == x.m.entries[i]
        }),
{
    let gs = x.m.entries;
    let bs = x.sb.blocksize;
    let a = fmt::addr_ag(blk);
    let y = resize::moved_below(x, ag, limit).0;
    let hb = fmt::addr_of(a, fs::header_local(a));
    fmt::law_address_halves(a, fs::header_local(a), blk);
    let h = fs::header_of(vol_of(x), Map::empty(), ag)->Ok_0;
    lemma_first_past(gs, bs, limit as int, 0);
    let by_header = fs::header_of(vol_of(x), Map::empty(), a) matches Ok(k) && k.full_blocks != 0;
    if by_header && a != 0 {
        assert(vol::rd0(vol_of(x), hb) is Ok);
        lemma_clear(x, hb);
    }
    if h.full_blocks == 0 {
        assert(a != ag);
        lemma_retired(x, ag, blk);
        lemma_retired(x, ag, hb);
    } else {
        let g = gs[ag as int];
        assert(g.length * bs > 0) by (nonlinear_arith)
            requires
                g.length > 0,
                bs > 0,
        ;
        resize_laws::law_gap_is_free(gs, bs, g.length * bs, limit as int);
        let dest = resize::gap_in(gs, bs, g.length * bs, limit as int)->0;
        lemma_gap_low(resize::spans_sorted(resize::spans(gs, bs)), g.length * bs, limit as int, 0, 0);
        lemma_moved(x, ag, dest as u64, blk);
        lemma_moved(x, ag, dest as u64, hb);
    }
    if by_header && a != 0 {
        assert(vol::rd0(vol_of(y), hb) == vol::rd0(vol_of(x), hb));
        assert(fs::header_of(vol_of(y), Map::empty(), a) == fs::header_of(
            vol_of(x),
            Map::empty(),
            a,
        ));
    } else if a == 0 {
        assert(!resize::reaches_past(gs[0], bs, limit as int));
        assert(y.m.entries[0] == gs[0]);
    } else {
        assert(a != ag);
        assert(y.m.entries[a as int] == gs[a as int]);
    }
}

/// A gap starts at or past the start of the search.
proof fn lemma_gap_low(s: Seq<(int, int)>, bytes: int, limit: int, k: int, cursor: int)
    requires
        0 <= k <= s.len(),
    ensures
        resize::gap_from(s, bytes, limit, k, cursor) matches Some(x) ==> x >= cursor,
    decreases s.len() - k,
{
    if k < s.len() {
        let c = if cursor < s[k].1 {
            s[k].1
        } else {
            cursor
        };
        lemma_gap_low(s, bytes, limit, k + 1, c);
    }
}

/// All groups out of the way.
proof fn lemma_all_below(x: Img, limit: u64, rounds: int, blk: u64)
    requires
        laid_out(x),
        resize::cleared(x, limit, rounds).1 is Ok,
        readable(x, blk),
        to_stay(x, fmt::addr_ag(blk), limit as int),
    ensures
        ({
            let y = resize::cleared(x, limit, rounds).0;
            &&& same_anchors(x, y)
            &&& laid_out(y)
            &&& kept(x, y, blk)
            &&& forall|i: int|
                0 <= i < x.m.entries.len() && !resize::reaches_past(
                    x.m.entries[i],
                    x.sb.blocksize,
                    limit as int,
                ) ==> #[trigger] y.m.entries[i] == x.m.entries[i]
        }),
    decreases rounds,
{
    if let Some(i) = resize::first_past(x.m.entries, x.sb.blocksize, limit as int, 0) {
        lemma_first_past(x.m.entries, x.sb.blocksize, limit as int, 0);
        let y = resize::moved_below(x, i as u32, limit).0;
        lemma_below(x, i as u32, limit, blk);
        lemma_all_below(y, limit, rounds - 1, blk);
        let z = resize::cleared(y, limit, rounds - 1).0;
        assert forall|k: int|
            0 <= k < x.m.entries.len() && !resize::reaches_past(
                x.m.entries[k],
                x.sb.blocksize,
                limit as int,
            ) implies #[trigger] z.m.entries[k] == x.m.entries[k] by {
            assert(y.m.entries[k] == x.m.entries[k]);
        }
    }
}

/// Shrinking keeps the data: a block of a group that ends before the new size, or
/// that holds anything, reads after it what it read before. The first group's entry
/// and those of all groups below the new size do not change, and no id is given
/// back. Left out are the blocks of the superblock, its backup and the AG map, which
/// the moves themselves write.
pub proof fn law_shrinking_keeps_every_block(x: Img, size: usize, blk: u64)
    requires
        laid_out(x),
        resize::shrunk(x, size).1 is Ok,
        readable(x, blk),
        to_stay(x, fmt::addr_ag(blk), size as int),
    ensures
        ({
            let y = resize::shrunk(x, size).0;
            &&& vol::rd0(vol_of(y), blk) == vol::rd0(vol_of(x), blk)
            &&& y.d.bytes.len() == size
            &&& y.sb.next_ag == x.sb.next_ag
            &&& y.m.entries.len() == x.m.entries.len()
            &&& y.m.entries[0] == x.m.entries[0]
            &&& agmap::is_present(y.m.entries[fmt::addr_ag(blk) as int].flags)
            &&& forall|i: int|
                0 <= i < x.m.entries.len() && !resize::reaches_past(
                    x.m.entries[i],
                    x.sb.blocksize,
                    size as int,
                ) ==> #[trigger] y.m.entries[i] == x.m.entries[i]
        }),
{
    let n = x.m.entries.len() as int;
    let bs = x.sb.blocksize;
    lemma_all_below(x, size as u64, n, blk);
    resize_laws::lemma_cleared(x, size as u64, n);
    let z = resize::cleared(x, size as u64, n).0;
    let y = resize::shrunk(x, size).0;
    let gs = z.m.entries;
    resize_laws::lemma_none_past(gs, bs, size as int, 0);
    let p = vol::place(gs, bs, blk)->Ok_0 as int;
    let a = fmt::addr_ag(blk) as int;
    let local = fmt::addr_local(blk);
    let s = agmap::find_seg(gs[a].segs, local)->0;
    resize_laws::lemma_find_seg(gs[a].segs, local);
    let j = choose|j: int| 0 <= j < gs[a].segs.len() && #[trigger] gs[a].segs[j] == s;
    let i = (local - s.ag_block) as int;
    assert(i * bs + bs <= s.blocks * bs && 0 <= i * bs) by (nonlinear_arith)
        requires
            0 <= i < s.blocks,
            bs > 0,
    ;
    assert(resize::seg_end(gs[a].segs[j], bs) <= size);
    assert(y.d.bytes.subrange(p, p + bs) =~= z.d.bytes.subrange(p, p + bs));
}

} // verus!
