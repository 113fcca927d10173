//! What a scan promises: it sees every inode signature on the volume, each one once,
//! and nothing else.

use crate::error::FsError;
use crate::fmt::INODE_MAGIC;
use crate::inode::Inode;
use crate::scan::Sighting;
use crate::vol::Vol;
use vstd::prelude::*;

use crate::fmt;
use crate::fs;
use crate::inode;
use crate::scan;
use crate::vol;

verus! {

/// Where a signature stands: group, block of the group, slot of the block.
pub type Spot = (int, int, int);

/// Slot `p.2` of block `p.1` of group `p.0` starts with the inode signature: the group
/// is present, the block is one of its blocks and can be read, the slot has room for the
/// two bytes, and its number can be told.
pub open spec fn marked(v: Vol, isz: int, p: Spot) -> bool {
    let (ag, local, k) = p;
    &&& 0 <= ag < v.groups.len()
    &&& v.groups[ag].flags % 2 == 1
    &&& 0 <= local < v.groups[ag].length
    &&& 0 <= k
    &&& vol::rd0(v, fmt::addr_of(ag as u32, local as u32)) matches Ok(b) && k * isz + 2 <= b.len()
        && b[k * isz] == 0x49 && b[k * isz + 1] == 0x4e
    &&& local * (v.bs as int / isz) + k <= u32::MAX
}

/// The sighting of the signature at a spot: under the number of its slot, with the inode
/// that the bytes of the slot, or what the block has of them, give.
pub open spec fn sighting_of(v: Vol, isz: int, p: Spot, s: Sighting) -> bool {
    let (ag, local, k) = p;
    let b = vol::rd0(v, fmt::addr_of(ag as u32, local as u32))->Ok_0;
    let end = if k * isz + isz <= b.len() {
        k * isz + isz
    } else {
        b.len() as int
    };
    &&& s.ino == fmt::addr_of(ag as u32, (local * (v.bs as int / isz) + k) as u32)
    &&& s.inode == inode::inode_parse(b.subrange(k * isz, end))
}

/// One spot comes before another.
pub open spec fn earlier(p: Spot, q: Spot) -> bool {
    p.0 < q.0 || (p.0 == q.0 && (p.1 < q.1 || (p.1 == q.1 && p.2 < q.2)))
}

/// The sightings are those of the signatures at these spots, in order.
spec fn matches_spots(v: Vol, isz: int, ps: Seq<Spot>, r: Seq<Sighting>) -> bool {
    &&& ps.len() == r.len()
    &&& forall|i: int|
        0 <= i < r.len() ==> marked(v, isz, #[trigger] ps[i]) && sighting_of(v, isz, ps[i], r[i])
    &&& forall|i: int, j: int|
        0 <= i < j < ps.len() ==> earlier(#[trigger] ps[i], #[trigger] ps[j])
}

/// Sightings and more, all of them later.
proof fn lemma_matches_more(
    v: Vol,
    isz: int,
    ps: Seq<Spot>,
    r: Seq<Sighting>,
    ps1: Seq<Spot>,
    r1: Seq<Sighting>,
)
    requires
        matches_spots(v, isz, ps, r),
        matches_spots(v, isz, ps1, r1),
        forall|i: int, j: int|
            0 <= i < ps.len() && 0 <= j < ps1.len() ==> earlier(#[trigger] ps[i], #[trigger] ps1[j]),
    ensures
        matches_spots(v, isz, ps + ps1, r + r1),
        forall|p: Spot| #[trigger] ps.contains(p) ==> (ps + ps1).contains(p),
        forall|p: Spot| #[trigger] ps1.contains(p) ==> (ps + ps1).contains(p),
{
    let all = ps + ps1;
    let out = r + r1;
    assert forall|i: int| 0 <= i < out.len() implies marked(v, isz, #[trigger] all[i])
        && sighting_of(v, isz, all[i], out[i]) by {
        if i < ps.len() {
            assert(all[i] == ps[i] && out[i] == r[i]);
        } else {
            assert(all[i] == ps1[i - ps.len()] && out[i] == r1[i - ps.len()]);
        }
    }
    assert forall|i: int, j: int| 0 <= i < j < all.len() implies earlier(
        #[trigger] all[i],
        #[trigger] all[j],
    ) by {
        if j < ps.len() {
            assert(earlier(ps[i], ps[j]));
        } else if i >= ps.len() {
            assert(earlier(ps1[i - ps.len()], ps1[j - ps.len()]));
        } else {
            assert(earlier(ps[i], ps1[j - ps.len()]));
        }
    }
    assert forall|p: Spot| #[trigger] ps.contains(p) implies all.contains(p) by {
        let i = choose|i: int| 0 <= i < ps.len() && ps[i] == p;
        assert(all[i] == p);
    }
    assert forall|p: Spot| #[trigger] ps1.contains(p) implies all.contains(p) by {
        let i = choose|i: int| 0 <= i < ps1.len() && ps1[i] == p;
        assert(all[i + ps.len()] == p);
    }
}

/// A block that starts inside the slot, and how far the slot reaches.
proof fn lemma_slot(bs: int, isz: int, k: int)
    requires
        isz >= 2,
        bs > 0,
        0 <= k,
    ensures
        k * isz < bs <==> k < fmt::ceil_div(bs, isz),
        0 <= k * isz,
{
    fmt::lemma_ceil_div(bs, isz);
    let n = fmt::ceil_div(bs, isz);
    assert(0 <= k * isz) by (nonlinear_arith)
        requires
            k >= 0,
            isz >= 0,
    ;
    if k < n {
        assert(k * isz < bs) by (nonlinear_arith)
            requires
                k <= n - 1,
                (n - 1) * isz < bs,
                isz > 0,
        ;
    } else {
        assert(k * isz >= bs) by (nonlinear_arith)
            requires
                k >= n,
                n * isz >= bs,
                isz > 0,
        ;
    }
}

/// The first `n` slots of a block.
proof fn lemma_block(v: Vol, isz: int, ag: u32, local: u32, b: Seq<u8>, n: int) -> (ps: Seq<Spot>)
    requires
        isz >= 2,
        v.bs > 0,
        ag < v.groups.len(),
        v.groups[ag as int].flags % 2 == 1,
        local < v.groups[ag as int].length,
        vol::rd0(v, fmt::addr_of(ag, local)) == Ok::<Seq<u8>, FsError>(b),
        0 <= n <= fmt::ceil_div(v.bs as int, isz),
    ensures
        matches_spots(
            v,
            isz,
            ps,
            scan::seen_in_block(b, v.bs, isz, ag, local as int, n),
        ),
        forall|i: int|
            0 <= i < ps.len() ==> (#[trigger] ps[i]).0 == ag && ps[i].1 == local && 0 <= ps[i].2
                < n,
        forall|k: int|
            0 <= k < n && marked(v, isz, (ag as int, local as int, k)) ==> #[trigger] ps.contains(
                (ag as int, local as int, k),
            ),
    decreases n,
{
    if n <= 0 {
        Seq::empty()
    } else {
        let k = n - 1;
        let before = lemma_block(v, isz, ag, local, b, k);
        let r = scan::seen_in_block(b, v.bs, isz, ag, local as int, k);
        let here = (ag as int, local as int, k);
        let s = scan::slot_in(b, isz, k);
        let at = scan::slot_number(v.bs, isz, local as int, k);
        assert(b.len() == v.bs);
        lemma_slot(v.bs as int, isz, k);
        assert(s.len() >= 2 <==> k * isz + 2 <= b.len());
        if s.len() >= 2 {
            assert(s[0] == b[k * isz] && s[1] == b[k * isz + 1]);
            assert((fmt::u16_at(s, 0) == INODE_MAGIC) == (s[0] == 0x49 && s[1] == 0x4e));
        }
        if marked(v, isz, here) {
            let all = before.push(here);
            let out = scan::seen_in_block(b, v.bs, isz, ag, local as int, n);
            let one = Sighting { ino: fmt::addr_of(ag, at as u32), inode: inode::inode_parse(s) };
            assert(out == r.push(one));
            assert(sighting_of(v, isz, here, one));
            assert(all[before.len() as int] == here);
            assert(matches_spots(v, isz, seq![here], seq![one]));
            lemma_matches_more(v, isz, before, r, seq![here], seq![one]);
            assert(before + seq![here] =~= all && r + seq![one] =~= out);
            assert forall|j: int|
                0 <= j < n && marked(v, isz, (ag as int, local as int, j)) implies #[trigger] all.contains(
                (ag as int, local as int, j),
            ) by {
                if j < k {
                    assert(before.contains((ag as int, local as int, j)));
                }
            }
            assert forall|i: int| 0 <= i < all.len() implies (#[trigger] all[i]).0 == ag
                && all[i].1 == local && 0 <= all[i].2 < n by {
                if i < before.len() {
                    assert(all[i] == before[i]);
                }
            }
            all
        } else {
            before
        }
    }
}

/// The first `n` blocks of a group.
proof fn lemma_group(v: Vol, isz: int, ag: u32, n: int) -> (ps: Seq<Spot>)
    requires
        isz >= 2,
        v.bs > 0,
        ag < v.groups.len(),
        v.groups[ag as int].flags % 2 == 1,
        0 <= n <= v.groups[ag as int].length,
    ensures
        matches_spots(v, isz, ps, scan::seen_in_group(v, isz, ag, n)),
        forall|i: int|
            0 <= i < ps.len() ==> (#[trigger] ps[i]).0 == ag && 0 <= ps[i].1 < n,
        forall|p: Spot|
            p.0 == ag && p.1 < n && marked(v, isz, p) ==> #[trigger] ps.contains(p),
    decreases n,
{
    if n <= 0 {
        Seq::empty()
    } else {
        let local = (n - 1) as u32;
        let before = lemma_group(v, isz, ag, n - 1);
        let r = scan::seen_in_group(v, isz, ag, n - 1);
        match vol::rd0(v, fmt::addr_of(ag, local)) {
            Ok(b) => {
                let m = fmt::ceil_div(v.bs as int, isz);
                fmt::lemma_ceil_div(v.bs as int, isz);
                let more = lemma_block(v, isz, ag, local, b, m);
                let r1 = scan::seen_in_block(b, v.bs, isz, ag, local as int, m);
                lemma_matches_more(v, isz, before, r, more, r1);
                let all = before + more;
                assert forall|p: Spot|
                    p.0 == ag && p.1 < n && marked(v, isz, p) implies #[trigger] all.contains(
                    p,
                ) by {
                    if p.1 == n - 1 {
                        lemma_slot(v.bs as int, isz, p.2);
                        assert(p == (ag as int, local as int, p.2));
                        assert(more.contains((ag as int, local as int, p.2)));
                    } else {
                        assert(before.contains(p));
                    }
                }
                assert forall|i: int| 0 <= i < all.len() implies (#[trigger] all[i]).0 == ag && 0
                    <= all[i].1 < n by {
                    if i < before.len() {
                        assert(all[i] == before[i]);
                    } else {
                        assert(all[i] == more[i - before.len()]);
                    }
                }
                all
            },
            Err(_) => {
                assert(r + Seq::<Sighting>::empty() =~= r);
                assert forall|p: Spot|
                    p.0 == ag && p.1 < n && marked(v, isz, p) implies #[trigger] before.contains(
                    p,
                ) by {
                    assert(p.1 != n - 1);
                }
                before
            },
        }
    }
}

/// The first `n` groups.
proof fn lemma_groups(v: Vol, isz: int, n: int) -> (ps: Seq<Spot>)
    requires
        isz >= 2,
        v.bs > 0,
        0 <= n <= v.groups.len() <= 0x1_0000_0000,
    ensures
        matches_spots(v, isz, ps, scan::seen(v, isz, n)),
        forall|i: int| 0 <= i < ps.len() ==> 0 <= (#[trigger] ps[i]).0 < n,
        forall|p: Spot| p.0 < n && marked(v, isz, p) ==> #[trigger] ps.contains(p),
    decreases n,
{
    if n <= 0 {
        Seq::empty()
    } else {
        let ag = (n - 1) as u32;
        let before = lemma_groups(v, isz, n - 1);
        let r = scan::seen(v, isz, n - 1);
        let g = v.groups[n - 1];
        if g.flags % 2 == 1 {
            let more = lemma_group(v, isz, ag, g.length as int);
            let r1 = scan::seen_in_group(v, isz, ag, g.length as int);
            lemma_matches_more(v, isz, before, r, more, r1);
            let all = before + more;
            assert forall|p: Spot| p.0 < n && marked(v, isz, p) implies #[trigger] all.contains(
                p,
            ) by {
                if p.0 == n - 1 {
                    assert(more.contains(p));
                } else {
                    assert(before.contains(p));
                }
            }
            assert forall|i: int| 0 <= i < all.len() implies 0 <= (#[trigger] all[i]).0 < n by {
                if i < before.len() {
                    assert(all[i] == before[i]);
                } else {
                    assert(all[i] == more[i - before.len()]);
                }
            }
            all
        } else {
            assert(r + Seq::<Sighting>::empty() =~= r);
            assert forall|p: Spot| p.0 < n && marked(v, isz, p) implies #[trigger] before.contains(
                p,
            ) by {
                assert(p.0 != n - 1);
            }
            before
        }
    }
}

/// A scan sees every slot that starts with the inode signature, in every block that can
/// be read of every present group, and sees nothing else: its sightings are those of the
/// slots, each one once, in order of group, block and slot.
pub proof fn law_scan_sees_every_signature(v: Vol, isz: int) -> (ps: Seq<Spot>)
    requires
        isz >= 2,
        v.bs > 0,
        v.groups.len() <= 0x1_0000_0000,
    ensures
        ({
            let r = scan::seen(v, isz, v.groups.len() as int);
            &&& ps.len() == r.len()
            &&& forall|p: Spot| #[trigger] ps.contains(p) <==> marked(v, isz, p)
            &&& forall|i: int| 0 <= i < r.len() ==> sighting_of(v, isz, #[trigger] ps[i], r[i])
            &&& forall|i: int, j: int|
                0 <= i < j < ps.len() ==> earlier(#[trigger] ps[i], #[trigger] ps[j])
        }),
{
    lemma_groups(v, isz, v.groups.len() as int)
}

/// Every inode that reads is seen by a scan, under its number and with what is read of
/// it, if its block can be read.
pub proof fn law_scan_sees_every_inode(v: Vol, isz: u16, ino: u64, i: Inode) -> (j: int)
    requires
        isz >= 256,
        v.bs > 0,
        v.bs as int % isz as int == 0,
        v.groups.len() <= 0x1_0000_0000,
        fs::inode_of(v, isz, ino) == Ok::<Inode, FsError>(i),
        vol::rd0(
            v,
            fmt::addr_of(
                fmt::addr_ag(ino),
                (fmt::addr_local(ino) as int / (v.bs as int / isz as int)) as u32,
            ),
        ) is Ok,
    ensures
        ({
            let r = scan::seen(v, isz as int, v.groups.len() as int);
            &&& 0 <= j < r.len()
            &&& r[j].ino == ino
            &&& r[j].inode == Ok::<Inode, fmt::FmtError>(i)
        }),
{
    let ag = fmt::addr_ag(ino);
    let n = fmt::addr_local(ino) as int;
    let (bs, sz) = (v.bs as int, isz as int);
    let slots = bs / sz;
    let local = n / slots;
    let k = n % slots;
    assert(slots * sz == bs && slots >= 1) by (nonlinear_arith)
        requires
            bs % sz == 0,
            slots == bs / sz,
            sz > 0,
            bs > 0,
    ;
    vstd::arithmetic::div_mod::lemma_fundamental_div_mod(n, slots);
    assert(0 <= k < slots && 0 <= local <= n && n == local * slots + k) by (nonlinear_arith)
        requires
            n == slots * (n / slots) + n % slots,
            local == n / slots,
            k == n % slots,
            slots >= 1,
            n >= 0,
    ;
    let byte = n * sz;
    assert(byte == local * bs + k * sz && 0 <= k * sz && k * sz + sz <= bs) by (nonlinear_arith)
        requires
            byte == n * sz,
            n == local * slots + k,
            slots * sz == bs,
            0 <= k < slots,
            sz > 0,
    ;
    vstd::arithmetic::div_mod::lemma_fundamental_div_mod_converse(byte, bs, local, k * sz);
    assert(local % 0x1_0000_0000 == local);
    let blk = fmt::addr_of(ag, local as u32);
    fmt::law_address_halves(ag, local as u32, 0);
    fmt::law_address_halves(0, 0, ino);
    assert(fs::inode_spot(v.bs, isz, ino) == (blk, k * sz));
    let b = vol::rd0(v, blk)->Ok_0;
    let slot = fs::slot_bytes(v, isz, ino)->Ok_0;
    let whole = b.subrange(k * sz, k * sz + sz);
    assert(whole.take(256) =~= slot.take(256));
    let p = (ag as int, local, k);
    assert(slot[0] == b[k * sz] && slot[1] == b[k * sz + 1]);
    assert(slot.take(256)[0] == slot[0] && slot.take(256)[1] == slot[1]);
    assert(fmt::u16_at(slot.take(256), 0) == INODE_MAGIC);
    assert(b[k * sz] == 0x49 && b[k * sz + 1] == 0x4e);
    assert(marked(v, sz, p));
    let ps = law_scan_sees_every_signature(v, sz);
    assert(ps.contains(p));
    let j = choose|j: int| 0 <= j < ps.len() && ps[j] == p;
    assert(sighting_of(v, sz, ps[j], scan::seen(v, sz, v.groups.len() as int)[j]));
    j
}

// --- cells by state -----------------------------------------------------------

/// The first `n` cells of a table that are in state `st`.
pub open spec fn cells_of(t: Seq<u8>, n: int, st: int) -> Set<int> {
    Set::new(|c: int| 0 <= c < n && fmt::cell_at(t, c) == st)
}

proof fn lemma_count(t: Seq<u8>, n: int, st: int)
    requires
        0 <= n,
    ensures
        cells_of(t, n, st).finite(),
        scan::cells_in_state(t, n, st) == cells_of(t, n, st).len(),
    decreases n,
{
    if n == 0 {
        assert(cells_of(t, n, st) =~= Set::empty());
    } else {
        lemma_count(t, n - 1, st);
        let before = cells_of(t, n - 1, st);
        if fmt::cell_at(t, n - 1) == st {
            assert(cells_of(t, n, st) =~= before.insert(n - 1));
        } else {
            assert(cells_of(t, n, st) =~= before);
        }
    }
}

/// What is counted of a table are its cells: in each state as many as are in it.
pub proof fn law_count_is_the_number_of_cells(t: Seq<u8>, n: int, st: int)
    requires
        0 <= n,
    ensures
        cells_of(t, n, st).finite(),
        scan::cells_in_state(t, n, st) == cells_of(t, n, st).len(),
{
    lemma_count(t, n, st);
}

/// The cells in the four states together are all of them.
pub proof fn law_counts_add_up(t: Seq<u8>, n: int)
    requires
        0 <= n,
    ensures
        scan::cells_in_state(t, n, 0) + scan::cells_in_state(t, n, 1) + scan::cells_in_state(
            t,
            n,
            2,
        ) + scan::cells_in_state(t, n, 3) == n,
    decreases n,
{
    if n > 0 {
        law_counts_add_up(t, n - 1);
        assert(fmt::cell_at(t, n - 1) < 4);
    }
}

} // verus!
