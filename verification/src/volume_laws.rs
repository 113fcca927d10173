//! What of a volume is found again: the map that counts, what was stored last,
//! and inodes and blocks at their places.

use vstd::prelude::*;

use crate::agmap;
use crate::agmap::{Group, Groups};
use crate::device;
use crate::device::Dev;
use crate::error::FsError;
use crate::fmt;
use crate::fs;
use crate::inode;
use crate::inode::Inode;
use crate::journal_laws;
use crate::resize;
use crate::resize::Img;
use crate::superblock;
use crate::superblock::Superblock;
use crate::vol;
use crate::vol::Vol;

verus! {

// --- loading ------------------------------------------------------------------

/// The bytes of map copy `k`: the two lie one behind the other.
pub open spec fn copy_bytes(bytes: Seq<u8>, sb: Superblock, k: int) -> Seq<u8> {
    bytes.subrange(
        sb.agmap_offset + k * sb.agmap_length,
        sb.agmap_offset + k * sb.agmap_length + sb.agmap_length,
    )
}

/// Of two copies of the AG map that can be read, the one of the higher
/// generation counts, and the first where they are level; a copy that cannot be
/// read never does. Without any there is no volume.
pub proof fn law_newer_copy_counts(bytes: Seq<u8>, sb: Superblock)
    requires
        bytes.len() <= u64::MAX,
        sb.agmap_offset + 2 * sb.agmap_length <= bytes.len(),
    ensures
        ({
            let a = agmap::map_parse(copy_bytes(bytes, sb, 0));
            let b = agmap::map_parse(copy_bytes(bytes, sb, 1));
            &&& a is Err && b is Err <==> fs::best_map(bytes, sb) is None
            &&& a is Ok && b is Err ==> fs::best_map(bytes, sb) == Some(a->Ok_0)
            &&& a is Err && b is Ok ==> fs::best_map(bytes, sb) == Some(b->Ok_0)
            &&& a is Ok && b is Ok && a->Ok_0.gen >= b->Ok_0.gen ==> fs::best_map(bytes, sb)
                == Some(a->Ok_0)
            &&& a is Ok && b is Ok && a->Ok_0.gen < b->Ok_0.gen ==> fs::best_map(bytes, sb)
                == Some(b->Ok_0)
        }),
{
    assert(0 * sb.agmap_length == 0) by (nonlinear_arith);
    assert(1 * sb.agmap_length == sb.agmap_length) by (nonlinear_arith);
}

/// Storing map and superblock makes them what is loaded: each under its next
/// generation, the superblock at the start of the device and again in its backup.
/// The older copy of the map is the one that is replaced: the copy that counted
/// before stays, to the byte.
#[verifier::rlimit(40)]
#[verifier::spinoff_prover]
pub proof fn law_stored_volume_loads(x: Img)
    requires
        resize::map_stored(x).1 is Ok,
        x.d.bytes.len() <= u64::MAX,
        superblock::is_pow2(x.sb.blocksize as int),
        x.sb.blocksize >= 512,
        x.sb.agmap_offset >= 512,
        x.sb.agmap_offset + 2 * x.sb.agmap_length <= x.d.bytes.len(),
        x.sb.agmap_length <= u32::MAX,
        forall|k: int|
            0 <= k < x.m.entries.len() ==> (#[trigger] x.m.entries[k]).segs.len() <= u16::MAX,
        x.m.entries.len() > 0,
        x.m.entries[0].segs.len() > 0,
        ({
            let s = x.m.entries[0].segs[0];
            s.dev_offset + (s.blocks - 1) * x.sb.blocksize >= x.sb.agmap_offset + 2
                * x.sb.agmap_length
        }),
        fs::map_copy(x.d.bytes, x.sb, (x.m.gen % 2) as int) == Ok::<Groups, FsError>(x.m),
    ensures
        ({
            let y = resize::map_stored(x).0;
            let s = x.m.entries[0].segs[0];
            let q = s.dev_offset + (s.blocks - 1) * x.sb.blocksize;
            &&& y.sb == (Superblock { gen: (x.sb.gen + 1) as u64, ..x.sb })
            &&& y.m == (Groups { gen: (x.m.gen + 1) as u64, ..x.m })
            &&& fs::loaded(y.d.bytes) == Ok::<(Superblock, Groups), FsError>((y.sb, y.m))
            &&& copy_bytes(y.d.bytes, x.sb, x.m.gen as int % 2) == copy_bytes(
                x.d.bytes,
                x.sb,
                x.m.gen as int % 2,
            )
            &&& y.d.bytes.subrange(q, q + 512) == y.d.bytes.subrange(0, 512)
        }),
{
    let sb = x.sb;
    let l = sb.agmap_length as int;
    let a = sb.agmap_offset as int;
    let m1 = Groups { gen: (x.m.gen + 1) as u64, ..x.m };
    let sb1 = Superblock { gen: (sb.gen + 1) as u64, ..sb };
    let (d1, m2, r1) = fs::map_write(x.d, sb, x.m);
    let y = resize::map_stored(x).0;
    lemma_map_written(x.d, sb, x.m);
    let new = a + m1.gen as int % 2 * l;
    let kept = a + x.m.gen as int % 2 * l;
    assert(0 * l == 0 && 1 * l == l) by (nonlinear_arith);
    journal_laws::lemma_sb_write_frame(d1, sb, m1.entries, new, l);
    journal_laws::lemma_sb_write_frame(d1, sb, m1.entries, kept, l);
    lemma_super_written(d1, sb, m1.entries);
    lemma_loaded(y.d.bytes, sb1, m1, x.m);
}

/// Of a map that is written one copy is the new one, the other stays.
#[verifier::rlimit(40)]
#[verifier::spinoff_prover]
proof fn lemma_map_written(d: Dev, sb: Superblock, m: Groups)
    requires
        fs::map_write(d, sb, m).2 is Ok,
        sb.agmap_offset + 2 * sb.agmap_length <= d.bytes.len() <= u64::MAX,
    ensures
        ({
            let m1 = Groups { gen: (m.gen + 1) as u64, ..m };
            let l = sb.agmap_length as int;
            let new = sb.agmap_offset + m1.gen as int % 2 * l;
            let kept = sb.agmap_offset + m.gen as int % 2 * l;
            let e = fs::map_write(d, sb, m).0;
            &&& m.gen < u64::MAX
            &&& fs::map_write(d, sb, m).1 == m1
            &&& agmap::groups_size(m.entries) <= l
            &&& e.bytes.len() == d.bytes.len()
            &&& e.bytes.subrange(new, new + l) == agmap::map_image(m1, l)
            &&& e.bytes.subrange(kept, kept + l) == d.bytes.subrange(kept, kept + l)
        }),
{
    let m1 = Groups { gen: (m.gen + 1) as u64, ..m };
    let l = sb.agmap_length as int;
    agmap::lemma_image_len(m1, l);
    assert(0 * l == 0 && 1 * l == l) by (nonlinear_arith);
    let e = fs::map_write(d, sb, m).0;
    let new = sb.agmap_offset + m1.gen as int % 2 * l;
    let kept = sb.agmap_offset + m.gen as int % 2 * l;
    assert(e.bytes.subrange(new, new + l) =~= agmap::map_image(m1, l));
    assert(e.bytes.subrange(kept, kept + l) =~= d.bytes.subrange(kept, kept + l));
}

/// A superblock that is written stands at the start and in its backup.
#[verifier::rlimit(40)]
#[verifier::spinoff_prover]
proof fn lemma_super_written(d: Dev, sb: Superblock, gs: Seq<Group>)
    requires
        fs::sb_write(d, sb, gs).2 is Ok,
        gs.len() > 0,
        gs[0].segs.len() > 0,
        gs[0].segs[0].dev_offset + (gs[0].segs[0].blocks - 1) * sb.blocksize >= 512,
    ensures
        ({
            let sb1 = Superblock { gen: (sb.gen + 1) as u64, ..sb };
            let q = gs[0].segs[0].dev_offset + (gs[0].segs[0].blocks - 1) * sb.blocksize;
            let e = fs::sb_write(d, sb, gs).0;
            &&& sb.gen < u64::MAX
            &&& fs::sb_write(d, sb, gs).1 == sb1
            &&& e.bytes.subrange(0, 512) == superblock::sb_bytes(sb1)
            &&& e.bytes.subrange(q, q + 512) == superblock::sb_bytes(sb1)
        }),
{
    let sb1 = Superblock { gen: (sb.gen + 1) as u64, ..sb };
    let items = fs::sb_writes(sb1, gs);
    journal_laws::lemma_sb_bytes_len(sb1);
    assert(items.len() == 2);
    journal_laws::lemma_writes_ok(d, items, 1);
    journal_laws::lemma_writes_hit(d, items, 0);
    journal_laws::lemma_writes_hit(d, items, 1);
}

/// A volume with this superblock and these two copies loads with the newer.
#[verifier::rlimit(40)]
#[verifier::spinoff_prover]
proof fn lemma_loaded(bytes: Seq<u8>, sb: Superblock, new: Groups, kept: Groups)
    requires
        bytes.len() <= u64::MAX,
        superblock::is_pow2(sb.blocksize as int),
        sb.blocksize >= 512,
        bytes.len() >= 512,
        sb.agmap_offset + 2 * sb.agmap_length <= bytes.len(),
        sb.agmap_length <= u32::MAX,
        agmap::groups_size(new.entries) <= sb.agmap_length,
        forall|k: int|
            0 <= k < new.entries.len() ==> (#[trigger] new.entries[k]).segs.len() <= u16::MAX,
        new.gen == kept.gen + 1,
        bytes.subrange(0, 512) == superblock::sb_bytes(sb),
        copy_bytes(bytes, sb, new.gen as int % 2) == agmap::map_image(new, sb.agmap_length as int),
        fs::map_copy(bytes, sb, kept.gen as int % 2) == Ok::<Groups, FsError>(kept),
    ensures
        fs::loaded(bytes) == Ok::<(Superblock, Groups), FsError>((sb, new)),
{
    superblock::law_superblock_round_trip(sb);
    let l = sb.agmap_length as int;
    agmap::law_agmap_round_trip(new, l);
    assert(0 * l == 0 && 1 * l == l) by (nonlinear_arith);
    assert(fs::map_copy(bytes, sb, new.gen as int % 2) == Ok::<Groups, FsError>(new));
}

// --- inode slots --------------------------------------------------------------

/// The slots of a group lie one behind the other: in a group of one piece slot
/// `n` starts `n` inode sizes behind the group.
pub proof fn law_slots_lie_in_a_row(
    gs: Seq<Group>,
    bs: u32,
    isz: u16,
    ag: int,
    n: int,
)
    requires
        bs > 0,
        0 <= ag < gs.len(),
        ag <= u32::MAX,
        0 <= n <= u32::MAX,
        gs[ag].flags % 2 == 1,
        gs[ag].segs.len() == 1,
        gs[ag].segs[0].ag_block == 0,
        gs[ag].segs[0].blocks == gs[ag].length,
        n * isz < gs[ag].length * bs,
        gs[ag].segs[0].dev_offset + gs[ag].length * bs <= u64::MAX,
    ensures
        fs::inode_place(gs, bs, isz, (ag * 0x1_0000_0000 + n) as u64) == Ok::<u64, FsError>(
            (gs[ag].segs[0].dev_offset + n * isz) as u64,
        ),
{
    let ino = (ag * 0x1_0000_0000 + n) as u64;
    fmt::law_address_halves(ag as u32, n as u32, 0);
    let byte = n * isz;
    let q = byte / bs as int;
    let r = byte % bs as int;
    let len = gs[ag].length as int;
    assert(byte >= 0) by (nonlinear_arith)
        requires
            byte == n * isz,
            n >= 0,
            isz >= 0,
    ;
    assert(byte == q * bs + r && 0 <= r < bs && 0 <= q) by (nonlinear_arith)
        requires
            q == byte / (bs as int),
            r == byte % (bs as int),
            bs > 0,
            byte >= 0,
    ;
    assert(q < len) by (nonlinear_arith)
        requires
            byte < len * bs,
            q * bs <= byte,
            bs > 0,
    ;
    assert(q % 0x1_0000_0000 == q);
    fmt::law_address_halves(ag as u32, q as u32, 0);
    let s = gs[ag].segs[0];
    assert(agmap::seg_covers(s, q as u32));
    assert(agmap::find_seg(gs[ag].segs, q as u32) == Some(s));
    assert(q * bs >= 0) by (nonlinear_arith)
        requires
            q >= 0,
    ;
}

/// An inode that was written is read again, and every other slot that lies
/// apart reads as before.
pub proof fn law_written_inode_reads_back(
    d: Dev,
    gs: Seq<Group>,
    bs: u32,
    isz: u16,
    ino: u64,
    other: u64,
    i: Inode,
)
    requires
        fs::inode_place(gs, bs, isz, ino) is Ok,
        device::dev_write(
            d,
            fs::inode_place(gs, bs, isz, ino)->Ok_0,
            inode::inode_bytes(i),
        ).1 is Ok,
    ensures
        ({
            let p = fs::inode_place(gs, bs, isz, ino)->Ok_0;
            let e = device::dev_write(d, p, inode::inode_bytes(i)).0;
            let v = Vol { bytes: d.bytes, groups: gs, bs };
            let w = Vol { bytes: e.bytes, groups: gs, bs };
            &&& fs::inode_of(w, isz, ino) == Ok::<Inode, FsError>(i)
            &&& fs::inode_place(gs, bs, isz, other) matches Ok(q) ==> (q + 256 <= p || p + 256
                <= q ==> fs::inode_of(w, isz, other) == fs::inode_of(v, isz, other))
        }),
{
    inode::law_inode_round_trip(i, Seq::empty());
    let b = inode::inode_bytes(i);
    assert(b + Seq::empty() =~= b);
    let p = fs::inode_place(gs, bs, isz, ino)->Ok_0;
    let e = device::dev_write(d, p, b).0;
    assert(e.bytes.subrange(p as int, p + 256) =~= b);
    if let Ok(q) = fs::inode_place(gs, bs, isz, other) {
        if (q + 256 <= p || p + 256 <= q) && q + 256 <= d.bytes.len() {
            assert(e.bytes.subrange(q as int, q + 256) =~= d.bytes.subrange(q as int, q + 256));
        }
    }
}

/// A block that was written is read again, and every block that lies apart reads
/// as before.
pub proof fn law_written_block_reads_back(
    d: Dev,
    gs: Seq<Group>,
    bs: u32,
    blk: u64,
    other: u64,
    data: Seq<u8>,
)
    requires
        data.len() == bs,
        vol::place(gs, bs, blk) is Ok,
        device::dev_write(d, vol::place(gs, bs, blk)->Ok_0, data).1 is Ok,
    ensures
        ({
            let p = vol::place(gs, bs, blk)->Ok_0;
            let e = device::dev_write(d, p, data).0;
            let v = Vol { bytes: d.bytes, groups: gs, bs };
            let w = Vol { bytes: e.bytes, groups: gs, bs };
            &&& vol::rd0(w, blk) == Ok::<Seq<u8>, FsError>(data)
            &&& vol::place(gs, bs, other) matches Ok(q) ==> (q + bs <= p || p + bs <= q ==> vol::rd0(
                w,
                other,
            ) == vol::rd0(v, other))
        }),
{
    let p = vol::place(gs, bs, blk)->Ok_0;
    let e = device::dev_write(d, p, data).0;
    assert(e.bytes.subrange(p as int, p + bs) =~= data);
    if let Ok(q) = vol::place(gs, bs, other) {
        if (q + bs <= p || p + bs <= q) && q + bs <= d.bytes.len() {
            assert(e.bytes.subrange(q as int, q + bs) =~= d.bytes.subrange(q as int, q + bs));
        }
    }
}

} // verus!
