//! What a new volume promises: it loads with the layout that was planned, its
//! root directory reads back, and a kernel lies in one piece where the
//! superblock says.

use crate::agmap::Groups;
use crate::device::Dev;
use crate::error::FsError;
use crate::header::AgHeader;
use crate::inode::{Inode, Ts};
use crate::mkfs::{MkfsOpts, Plan, AGMAP_BYTES, MAX_AG_BYTES};
use crate::resize::Img;
use crate::superblock::Superblock;
use crate::vol::Vol;
use vstd::prelude::*;

use crate::agmap;
use crate::device;
use crate::fmt;
use crate::fs;
use crate::header;
use crate::import;
use crate::inode;
use crate::journal;
use crate::journal_laws;
use crate::mkfs;
use crate::new_tables;
use crate::resize;
use crate::resize_laws;
use crate::superblock;
use crate::tables;
use crate::vol;

verus! {

/// The group lengths of a volume on the device `d`.
pub open spec fn lens_of(d: Dev, o: MkfsOpts) -> Seq<u32> {
    let bs = o.blocksize;
    let size = d.bytes.len() - d.bytes.len() % bs as nat;
    mkfs::group_lengths(size / bs as int, MAX_AG_BYTES as int / bs as int)
}

/// The layout of its first group.
pub open spec fn layout_of(d: Dev, o: MkfsOpts) -> Result<Plan, FsError> {
    let bs = o.blocksize;
    let size = d.bytes.len() - d.bytes.len() % bs as nat;
    mkfs::plan_of(
        lens_of(d, o)[0],
        bs,
        mkfs::journal_bytes(size, o.journal),
        mkfs::kernel_len(o),
    )
}

/// The superblock of the new volume.
pub open spec fn super_of(d: Dev, o: MkfsOpts, uuid: [u8; 16]) -> Superblock {
    mkfs::first_super(o, layout_of(d, o)->Ok_0, lens_of(d, o), mkfs::kernel_len(o), uuid)
}

/// What a finished volume was made of: sizes and layout are in order.
pub open spec fn planned(d: Dev, o: MkfsOpts, p: Plan, lens: Seq<u32>) -> bool {
    let bs = o.blocksize;
    &&& 2048 <= bs <= 0x8000_0000
    &&& 256 <= o.inodesize <= bs
    &&& (bs / o.inodesize as u32) * o.inodesize == bs
    &&& 1 <= bs / o.inodesize as u32 <= 16
    &&& superblock::is_pow2(bs as int)
    &&& lens == lens_of(d, o)
    &&& 1 <= lens.len()
    &&& forall|i: int| 0 <= i < lens.len() ==> #[trigger] lens[i] > 0
    &&& lens[0] == p.length
    &&& p.wf(bs)
    &&& p.kernel == fmt::ceil_div(mkfs::kernel_len(o), bs as int)
    &&& mkfs::blocks_before(lens, lens.len() as int) * bs <= d.bytes.len()
    &&& d.bytes.len() <= u64::MAX
}

/// A power of two is a multiple of every smaller one.
pub proof fn lemma_pow2_divides(a: int, b: int)
    requires
        superblock::is_pow2(a),
        superblock::is_pow2(b),
        a <= b,
    ensures
        b % a == 0,
    decreases b,
{
    if a > 1 {
        lemma_pow2_divides(a / 2, b / 2);
        let x = a / 2;
        let y = b / 2;
        let q = y / x;
        assert(y == x * q) by (nonlinear_arith)
            requires
                y % x == 0,
                q == y / x,
                x > 0,
        ;
        assert(2 * y == q * (2 * x)) by (nonlinear_arith)
            requires
                y == x * q,
        ;
        vstd::arithmetic::div_mod::lemma_mod_multiples_basic(q, 2 * x);
    } else {
        assert(a == 1);
    }
}

pub proof fn lemma_planned(d: Dev, o: MkfsOpts, uuid: [u8; 16], now: Ts)
    requires
        d.bytes.len() <= u64::MAX,
        mkfs::opts_flaw(o) is None,
        mkfs::made(d, o, uuid, now).1 is Ok,
        mkfs::kernel_len(o) <= u64::MAX,
    ensures
        layout_of(d, o) is Ok,
        planned(d, o, layout_of(d, o)->Ok_0, lens_of(d, o)),
{
    lemma_plan_holds(d, o);
}

/// A layout that was found is in order.
pub proof fn lemma_plan_holds(d: Dev, o: MkfsOpts)
    requires
        d.bytes.len() <= u64::MAX,
        mkfs::opts_flaw(o) is None,
        mkfs::kernel_len(o) <= u64::MAX,
        d.bytes.len() - d.bytes.len() % (o.blocksize as nat) >= mkfs::MIN_SIZE,
        layout_of(d, o) is Ok,
    ensures
        planned(d, o, layout_of(d, o)->Ok_0, lens_of(d, o)),
{
    let bs = o.blocksize;
    let isz = o.inodesize;
    let n = d.bytes.len() as int;
    let size = n - n % bs as int;
    superblock::lemma_blocksize_bound(bs);
    lemma_pow2_divides(isz as int, bs as int);
    let slots = bs as int / isz as int;
    assert(slots * isz == bs && slots >= 1) by (nonlinear_arith)
        requires
            bs as int % (isz as int) == 0,
            slots == bs as int / (isz as int),
            0 < isz <= bs,
    ;
    mkfs::lemma_max_blocks(bs);
    let q = n / bs as int;
    assert(size == bs * q) by (nonlinear_arith)
        requires
            size == n - n % (bs as int),
            q == n / (bs as int),
            bs > 0,
    ;
    let total = size / bs as int;
    assert(total == q && q >= 1) by (nonlinear_arith)
        requires
            size == bs * q,
            total == size / (bs as int),
            size > 0,
            bs > 0,
    ;
    let max = MAX_AG_BYTES as int / bs as int;
    mkfs::law_groups_cover_the_device(total, max);
    let lens = lens_of(d, o);
    assert(total * bs <= n) by (nonlinear_arith)
        requires
            size == bs * q,
            total == q,
            size <= n,
    ;
    mkfs::lemma_plan(
        lens[0],
        bs,
        mkfs::journal_bytes(size, o.journal),
        mkfs::kernel_len(o),
    );
}

/// Everything that is written, in order.
pub open spec fn all_writes(o: MkfsOpts, p: Plan, lens: Seq<u32>, uuid: [u8; 16], now: Ts) -> Seq<
    (Result<u64, FsError>, Seq<u8>),
> {
    let bs = o.blocksize;
    mkfs::first_writes(p, bs, o.inodesize, mkfs::kernel_of(o), now) + mkfs::later_writes(
        lens,
        bs,
        lens.len() as int,
    ) + mkfs::last_writes(
        p,
        mkfs::first_super(o, p, lens, mkfs::kernel_len(o), uuid),
        mkfs::first_map(lens, bs),
    )
}

/// A finished volume is what its writes leave.
pub proof fn lemma_filled(d: Dev, o: MkfsOpts, p: Plan, lens: Seq<u32>, uuid: [u8; 16], now: Ts)
    requires
        mkfs::filled(d, o, p, lens, uuid, now).1 is Ok,
    ensures
        device::dev_writes(d, all_writes(o, p, lens, uuid, now)).1 is Ok,
        mkfs::filled(d, o, p, lens, uuid, now).0.bytes == device::dev_writes(
            d,
            all_writes(o, p, lens, uuid, now),
        ).0.bytes,
        agmap::groups_size(mkfs::first_map(lens, o.blocksize).entries) <= AGMAP_BYTES,
{
    reveal(mkfs::filled);
    let bs = o.blocksize;
    let a = mkfs::first_writes(p, bs, o.inodesize, mkfs::kernel_of(o), now) + mkfs::later_writes(
        lens,
        bs,
        lens.len() as int,
    );
    let b = mkfs::last_writes(
        p,
        mkfs::first_super(o, p, lens, mkfs::kernel_len(o), uuid),
        mkfs::first_map(lens, bs),
    );
    journal::lemma_dev_writes_append(d, a, b);
}

/// The writes to the later groups start behind the first.
proof fn lemma_later_places(lens: Seq<u32>, bs: u32, n: int)
    requires
        1 <= n <= lens.len(),
        mkfs::blocks_before(lens, lens.len() as int) * bs <= u64::MAX,
        forall|i: int| 0 <= i < lens.len() ==> #[trigger] lens[i] > 0,
        bs > 0,
    ensures
        forall|i: int|
            0 <= i < mkfs::later_writes(lens, bs, n).len() ==> ((#[trigger] mkfs::later_writes(
                lens,
                bs,
                n,
            )[i]).0 matches Ok(q) && q >= lens[0] * bs),
    decreases n,
{
    if n > 1 {
        lemma_later_places(lens, bs, n - 1);
        mkfs::lemma_before_monotonic(lens, 1, n - 1);
        mkfs::lemma_before_monotonic(lens, n, lens.len() as int);
        reveal_with_fuel(mkfs::blocks_before, 2);
        let a = mkfs::blocks_before(lens, n - 1);
        let total = mkfs::blocks_before(lens, lens.len() as int);
        let rest = mkfs::later_writes(lens, bs, n - 1);
        let here = mkfs::group_writes(lens, bs, n - 1);
        assert(a >= lens[0]);
        assert(lens[0] * bs <= a * bs && a * bs <= total * bs) by (nonlinear_arith)
            requires
                0 <= lens[0] <= a <= total,
                bs > 0,
        ;
        assert(a * bs + bs <= total * bs) by (nonlinear_arith)
            requires
                a + lens[n - 1] <= total,
                lens[n - 1] >= 1,
                bs > 0,
        ;
        let all = mkfs::later_writes(lens, bs, n);
        assert forall|i: int| 0 <= i < all.len() implies ((#[trigger] all[i]).0 matches Ok(q) && q
            >= lens[0] * bs) by {
            if i < rest.len() {
                assert(all[i] == rest[i]);
            } else {
                assert(all[i] == here[i - rest.len()]);
            }
        }
    }
}

/// Where the parts of the first group lie, in bytes.
pub proof fn lemma_byte_places(d: Dev, o: MkfsOpts, p: Plan, lens: Seq<u32>)
    requires
        planned(d, o, p, lens),
    ensures
        ({
            let bs = o.blocksize;
            &&& p.map_at * bs >= 2 * bs
            &&& p.map_at * bs + 2 * AGMAP_BYTES <= p.journal_at * bs
            &&& p.journal_at * bs + p.journal * bs == p.kernel_at * bs
            &&& p.kernel_at * bs + p.kernel * bs == p.next * bs
            &&& p.next * bs <= p.arena() * bs
            &&& p.arena() * bs + bs <= p.inodes() * bs
            &&& p.inodes() * bs + bs <= (p.length - 1) * bs
            &&& (p.length - 1) * bs + bs == p.length * bs
            &&& 0 <= p.length * bs <= d.bytes.len()
            &&& 0 <= p.kernel * bs
            &&& 0 <= p.journal * bs
            &&& p.kernel * bs >= mkfs::kernel_len(o)
            &&& mkfs::blocks_before(lens, lens.len() as int) >= p.length
        }),
{
    let bs = o.blocksize as int;
    let m = fmt::ceil_div(AGMAP_BYTES as int, bs);
    fmt::lemma_ceil_div(AGMAP_BYTES as int, bs);
    fmt::lemma_ceil_div(mkfs::kernel_len(o), bs);
    reveal_with_fuel(mkfs::blocks_before, 2);
    mkfs::lemma_before_monotonic(lens, 1, lens.len() as int);
    let total = mkfs::blocks_before(lens, lens.len() as int);
    assert(p.map_at * bs >= 2 * bs && p.map_at * bs + 2 * (m * bs) == p.journal_at * bs)
        by (nonlinear_arith)
        requires
            p.map_at >= 2,
            p.journal_at == p.map_at + 2 * m,
            bs > 0,
    ;
    assert(p.journal_at * bs + p.journal * bs == p.kernel_at * bs && p.kernel_at * bs + p.kernel
        * bs == p.next * bs) by (nonlinear_arith)
        requires
            p.kernel_at == p.journal_at + p.journal,
            p.next == p.kernel_at + p.kernel,
    ;
    assert(p.next * bs <= p.arena() * bs && p.arena() * bs + bs <= p.inodes() * bs && p.inodes()
        * bs + bs <= (p.length - 1) * bs) by (nonlinear_arith)
        requires
            p.next <= p.arena(),
            p.arena() + 1 <= p.inodes(),
            p.inodes() + 1 <= p.length - 1,
            bs > 0,
    ;
    assert((p.length - 1) * bs + bs == p.length * bs && 0 <= p.length * bs <= total * bs)
        by (nonlinear_arith)
        requires
            0 <= p.length <= total,
            bs > 0,
    ;
    assert(0 <= p.kernel * bs && 0 <= p.journal * bs) by (nonlinear_arith)
        requires
            bs > 0,
            p.kernel >= 0,
            p.journal >= 0,
    ;
}

/// A write that the later ones leave alone stands on the finished volume.
proof fn lemma_stands(
    d: Dev,
    o: MkfsOpts,
    p: Plan,
    lens: Seq<u32>,
    uuid: [u8; 16],
    now: Ts,
    k: int,
)
    requires
        planned(d, o, p, lens),
        mkfs::filled(d, o, p, lens, uuid, now).1 is Ok,
        ({
            let a = mkfs::first_writes(p, o.blocksize, o.inodesize, mkfs::kernel_of(o), now);
            let c = mkfs::last_writes(
                p,
                mkfs::first_super(o, p, lens, mkfs::kernel_len(o), uuid),
                mkfs::first_map(lens, o.blocksize),
            );
            &&& 0 <= k < a.len()
            &&& a[k].0 is Ok
            &&& a[k].0->Ok_0 + a[k].1.len() <= p.length * o.blocksize
            &&& forall|i: int|
                k < i < a.len() ==> ((#[trigger] a[i]).0 matches Ok(q) ==> journal_laws::apart(
                    a[k].0->Ok_0 as int,
                    a[k].1.len() as int,
                    q as int,
                    a[i].1.len() as int,
                ))
            &&& forall|i: int|
                0 <= i < c.len() ==> ((#[trigger] c[i]).0 matches Ok(q) ==> journal_laws::apart(
                    a[k].0->Ok_0 as int,
                    a[k].1.len() as int,
                    q as int,
                    c[i].1.len() as int,
                ))
        }),
    ensures
        ({
            let a = mkfs::first_writes(p, o.blocksize, o.inodesize, mkfs::kernel_of(o), now);
            let e = mkfs::filled(d, o, p, lens, uuid, now).0;
            &&& e.bytes.len() == d.bytes.len()
            &&& a[k].0->Ok_0 + a[k].1.len() <= e.bytes.len()
            &&& e.bytes.subrange(a[k].0->Ok_0 as int, a[k].0->Ok_0 + a[k].1.len()) == a[k].1
        }),
{
    let bs = o.blocksize;
    let a = mkfs::first_writes(p, bs, o.inodesize, mkfs::kernel_of(o), now);
    let b = mkfs::later_writes(lens, bs, lens.len() as int);
    let c = mkfs::last_writes(
        p,
        mkfs::first_super(o, p, lens, mkfs::kernel_len(o), uuid),
        mkfs::first_map(lens, bs),
    );
    let all = all_writes(o, p, lens, uuid, now);
    lemma_filled(d, o, p, lens, uuid, now);
    lemma_later_places(lens, bs, lens.len() as int);
    assert(all[k] == a[k]);
    assert forall|i: int| k < i < all.len() implies ((#[trigger] all[i]).0 matches Ok(q)
        ==> journal_laws::apart(
        all[k].0->Ok_0 as int,
        all[k].1.len() as int,
        q as int,
        all[i].1.len() as int,
    )) by {
        if i < a.len() {
            assert(all[i] == a[i]);
        } else if i < a.len() + b.len() {
            assert(all[i] == b[i - a.len()]);
        } else {
            assert(all[i] == c[i - a.len() - b.len()]);
        }
    }
    journal_laws::lemma_writes_hit(d, all, k);
    journal_laws::lemma_writes_len(d, all);
}

/// What is written last stands on the finished volume, up to what overwrites
/// it.
pub proof fn lemma_last_stands(
    d: Dev,
    o: MkfsOpts,
    p: Plan,
    lens: Seq<u32>,
    uuid: [u8; 16],
    now: Ts,
    k: int,
)
    requires
        mkfs::filled(d, o, p, lens, uuid, now).1 is Ok,
        ({
            let c = mkfs::last_writes(
                p,
                mkfs::first_super(o, p, lens, mkfs::kernel_len(o), uuid),
                mkfs::first_map(lens, o.blocksize),
            );
            &&& 0 <= k < c.len()
            &&& forall|i: int|
                k < i < c.len() ==> ((#[trigger] c[i]).0 matches Ok(q) ==> journal_laws::apart(
                    c[k].0->Ok_0 as int,
                    c[k].1.len() as int,
                    q as int,
                    c[i].1.len() as int,
                ))
        }),
    ensures
        ({
            let c = mkfs::last_writes(
                p,
                mkfs::first_super(o, p, lens, mkfs::kernel_len(o), uuid),
                mkfs::first_map(lens, o.blocksize),
            );
            let e = mkfs::filled(d, o, p, lens, uuid, now).0;
            &&& e.bytes.len() == d.bytes.len()
            &&& c[k].0->Ok_0 + c[k].1.len() <= e.bytes.len()
            &&& e.bytes.subrange(c[k].0->Ok_0 as int, c[k].0->Ok_0 + c[k].1.len()) == c[k].1
        }),
{
    let bs = o.blocksize;
    let a = mkfs::first_writes(p, bs, o.inodesize, mkfs::kernel_of(o), now);
    let b = mkfs::later_writes(lens, bs, lens.len() as int);
    let c = mkfs::last_writes(
        p,
        mkfs::first_super(o, p, lens, mkfs::kernel_len(o), uuid),
        mkfs::first_map(lens, bs),
    );
    let all = all_writes(o, p, lens, uuid, now);
    let n = a.len() + b.len();
    lemma_filled(d, o, p, lens, uuid, now);
    assert(all[n + k] == c[k]);
    assert forall|i: int| n + k < i < all.len() implies ((#[trigger] all[i]).0 matches Ok(q)
        ==> journal_laws::apart(
        all[n + k].0->Ok_0 as int,
        all[n + k].1.len() as int,
        q as int,
        all[i].1.len() as int,
    )) by {
        assert(all[i] == c[i - n]);
    }
    assert(c[k].0 is Ok);
    journal_laws::lemma_writes_hit(d, all, n + k);
    journal_laws::lemma_writes_len(d, all);
}

/// A finished volume loads: with the superblock and the AG map that were
/// planned.
#[verifier::rlimit(60)]
pub proof fn law_made_volume_loads(d: Dev, o: MkfsOpts, uuid: [u8; 16], now: Ts)
    requires
        d.bytes.len() <= u64::MAX,
        mkfs::kernel_len(o) <= u64::MAX,
        mkfs::opts_flaw(o) is None,
        mkfs::made(d, o, uuid, now).1 is Ok,
    ensures
        fs::loaded(mkfs::made(d, o, uuid, now).0.bytes) == Ok::<(Superblock, Groups), FsError>(
            (super_of(d, o, uuid), mkfs::first_map(lens_of(d, o), o.blocksize)),
        ),
{
    lemma_planned(d, o, uuid, now);
    let bs = o.blocksize;
    let p = layout_of(d, o)->Ok_0;
    let lens = lens_of(d, o);
    let sb = super_of(d, o, uuid);
    let m = mkfs::first_map(lens, bs);
    let e = mkfs::made(d, o, uuid, now).0;
    reveal(mkfs::first_super);
    lemma_byte_places(d, o, p, lens);
    lemma_filled(d, o, p, lens, uuid, now);
    journal_laws::lemma_sb_bytes_len(sb);
    agmap::lemma_image_len(m, AGMAP_BYTES as int);
    let c = mkfs::last_writes(p, sb, m);
    assert(c.len() == 5);
    lemma_last_stands(d, o, p, lens, uuid, now, 3);
    lemma_last_stands(d, o, p, lens, uuid, now, 0);
    lemma_last_stands(d, o, p, lens, uuid, now, 1);
    superblock::law_superblock_round_trip(sb);
    agmap::law_agmap_round_trip(m, AGMAP_BYTES as int);
    assert(e.bytes.subrange(0, 512) == superblock::sb_bytes(sb));
}

/// The writes of the first group, and what follows them, keep clear of the
/// first inode block from the last write on.
proof fn lemma_last_clear(d: Dev, o: MkfsOpts, p: Plan, lens: Seq<u32>, uuid: [u8; 16], lo: int, n: int)
    requires
        planned(d, o, p, lens),
        agmap::groups_size(mkfs::first_map(lens, o.blocksize).entries) <= AGMAP_BYTES,
        p.kernel_at * o.blocksize <= lo,
        0 <= n,
        lo + n <= (p.length - 1) * o.blocksize,
    ensures
        ({
            let c = mkfs::last_writes(
                p,
                mkfs::first_super(o, p, lens, mkfs::kernel_len(o), uuid),
                mkfs::first_map(lens, o.blocksize),
            );
            forall|i: int|
                0 <= i < c.len() ==> ((#[trigger] c[i]).0 matches Ok(q) ==> journal_laws::apart(
                    lo,
                    n,
                    q as int,
                    c[i].1.len() as int,
                ))
        }),
{
    reveal(mkfs::first_super);
    let sb = mkfs::first_super(o, p, lens, mkfs::kernel_len(o), uuid);
    let m = mkfs::first_map(lens, o.blocksize);
    lemma_byte_places(d, o, p, lens);
    journal_laws::lemma_sb_bytes_len(sb);
    agmap::lemma_image_len(m, AGMAP_BYTES as int);
    let c = mkfs::last_writes(p, sb, m);
    assert(c.len() == 5);
    assert(c[0].0 == Ok::<u64, FsError>((p.map_at * o.blocksize) as u64));
    assert forall|i: int| 0 <= i < c.len() implies ((#[trigger] c[i]).0 matches Ok(q)
        ==> journal_laws::apart(lo, n, q as int, c[i].1.len() as int)) by {
        if i == 0 || i == 1 || i == 2 || i == 3 || i == 4 {
        }
    }
}

/// The place of a block of the first group.
pub proof fn lemma_first_place(d: Dev, o: MkfsOpts, p: Plan, lens: Seq<u32>, local: u32)
    requires
        planned(d, o, p, lens),
        local < p.length,
    ensures
        vol::place(
            mkfs::first_map(lens, o.blocksize).entries,
            o.blocksize,
            fmt::addr_of(0, local),
        ) == Ok::<u64, FsError>((local * o.blocksize) as u64),
        0 <= local * o.blocksize,
        local * o.blocksize + o.blocksize <= p.length * o.blocksize <= d.bytes.len(),
{
    let bs = o.blocksize;
    let gs = mkfs::first_map(lens, bs).entries;
    lemma_byte_places(d, o, p, lens);
    fmt::law_address_halves(0, local, 0);
    assert(mkfs::blocks_before(lens, 0) * bs == 0) by (nonlinear_arith)
        requires
            mkfs::blocks_before(lens, 0) == 0,
    ;
    let w = agmap::AgSegment { ag_block: 0, blocks: p.length, dev_offset: 0 };
    assert(gs[0].segs =~= seq![w]);
    assert(agmap::find_seg(seq![w], local) == Some(w));
    assert(0 <= local * bs && local * bs + bs <= p.length * bs) by (nonlinear_arith)
        requires
            0 <= local < p.length,
            bs > 0,
    ;
}

/// The place of slot `k`, counted from the first slot of the inode block.
proof fn lemma_first_slot(d: Dev, o: MkfsOpts, p: Plan, lens: Seq<u32>, k: int)
    requires
        planned(d, o, p, lens),
        0 <= k <= 16,
        (k * o.inodesize) % (o.blocksize as int) + 256 <= o.blocksize,
        k * o.inodesize <= o.blocksize,
    ensures
        ({
            let bs = o.blocksize;
            let isz = o.inodesize;
            let ino = (mkfs::first_ino(p, bs, isz) + k) as u64;
            &&& fs::inode_place(mkfs::first_map(lens, bs).entries, bs, isz, ino) == Ok::<
                u64,
                FsError,
            >((p.inodes() * bs + k * isz) as u64)
            &&& p.inodes() * bs + k * isz + 256 <= d.bytes.len()
        }),
{
    let bs = o.blocksize;
    let isz = o.inodesize;
    let slots = bs / isz as u32;
    let base = p.inodes() * slots;
    let ino = (mkfs::first_ino(p, bs, isz) + k) as u64;
    lemma_byte_places(d, o, p, lens);
    assert(0 <= base && base + 16 <= u32::MAX) by (nonlinear_arith)
        requires
            base == p.inodes() * slots,
            0 <= p.inodes() <= 0xfff_fffe,
            0 <= slots <= 16,
    ;
    fmt::law_address_halves(0, (base + k) as u32, 0);
    fmt::law_address_halves(0, base as u32, 0);
    assert(ino == fmt::addr_of(0, (base + k) as u32));
    let byte = (base + k) * isz;
    let x = k * isz;
    let b = bs as int;
    assert(byte == p.inodes() * b + x && 0 <= x) by (nonlinear_arith)
        requires
            byte == (base + k) * isz,
            base == p.inodes() * slots,
            slots * isz == b,
            x == k * isz,
            k >= 0,
    ;
    let y = x / b;
    let w = x % b;
    assert(x == b * y + w && 0 <= w < b && 0 <= y <= 1) by (nonlinear_arith)
        requires
            0 <= x <= b,
            y == x / b,
            w == x % b,
            b > 0,
    ;
    let at = p.inodes() + y;
    assert(byte == at * b + w) by (nonlinear_arith)
        requires
            byte == p.inodes() * b + x,
            x == b * y + w,
            at == p.inodes() + y,
    ;
    vstd::arithmetic::div_mod::lemma_fundamental_div_mod_converse(byte, b, at, w);
    lemma_first_place(d, o, p, lens, at as u32);
}

/// The root inode of a finished volume reads back as it was made: a directory
/// that is empty, or holds the kernel.
pub proof fn law_made_root_reads_back(d: Dev, o: MkfsOpts, uuid: [u8; 16], now: Ts)
    requires
        d.bytes.len() <= u64::MAX,
        mkfs::kernel_len(o) <= u64::MAX,
        mkfs::opts_flaw(o) is None,
        mkfs::made(d, o, uuid, now).1 is Ok,
    ensures
        fs::inode_of(
            Vol {
                bytes: mkfs::made(d, o, uuid, now).0.bytes,
                groups: mkfs::first_map(lens_of(d, o), o.blocksize).entries,
                bs: o.blocksize,
            },
            o.inodesize,
            super_of(d, o, uuid).root_ino,
        ) == Ok::<Inode, FsError>(
            mkfs::root_inode(now, super_of(d, o, uuid).root_ino, mkfs::kernel_of(o) is Some),
        ),
{
    lemma_planned(d, o, uuid, now);
    let bs = o.blocksize;
    let isz = o.inodesize;
    let p = layout_of(d, o)->Ok_0;
    let lens = lens_of(d, o);
    let e = mkfs::made(d, o, uuid, now).0;
    let ino = mkfs::first_ino(p, bs, isz);
    assert(super_of(d, o, uuid).root_ino == ino) by {
        reveal(mkfs::first_super);
    }
    let root = mkfs::root_inode(now, ino, mkfs::kernel_of(o) is Some);
    let a = mkfs::first_writes(p, bs, isz, mkfs::kernel_of(o), now);
    let k = a.len() - 1;
    lemma_byte_places(d, o, p, lens);
    lemma_filled(d, o, p, lens, uuid, now);
    inode::law_inode_round_trip(root, Seq::empty());
    let b = inode::inode_bytes(root);
    assert(b + Seq::empty() =~= b);
    assert(a[k] == mkfs::at(p.inodes() * bs, b));
    lemma_last_clear(d, o, p, lens, uuid, p.inodes() * bs, 256);
    lemma_stands(d, o, p, lens, uuid, now, k);
    assert(0int * isz == 0) by (nonlinear_arith);
    lemma_first_slot(d, o, p, lens, 0);
}

/// The kernel guarantee: on a finished volume the kernel lies in one piece,
/// byte for byte, where the superblock says.
pub proof fn law_kernel_lies_in_one_piece(d: Dev, o: MkfsOpts, uuid: [u8; 16], now: Ts)
    requires
        d.bytes.len() <= u64::MAX,
        mkfs::kernel_len(o) <= u64::MAX,
        mkfs::opts_flaw(o) is None,
        mkfs::made(d, o, uuid, now).1 is Ok,
        mkfs::kernel_len(o) > 0,
    ensures
        ({
            let sb = super_of(d, o, uuid);
            let e = mkfs::made(d, o, uuid, now).0;
            &&& 0 < sb.kernel_offset < sb.kernel_end <= e.bytes.len()
            &&& e.bytes.subrange(sb.kernel_offset as int, sb.kernel_end as int)
                == mkfs::kernel_of(o)->0
        }),
{
    lemma_planned(d, o, uuid, now);
    let bs = o.blocksize;
    let isz = o.inodesize;
    let p = layout_of(d, o)->Ok_0;
    let lens = lens_of(d, o);
    let e = mkfs::made(d, o, uuid, now).0;
    let ker = mkfs::kernel_of(o)->0;
    let a = mkfs::first_writes(p, bs, isz, mkfs::kernel_of(o), now);
    lemma_kernel_stands(d, o, p, lens, uuid, now);
    lemma_byte_places(d, o, p, lens);
    fmt::lemma_ceil_div(ker.len() as int, bs as int);
    assert(p.kernel > 0) by (nonlinear_arith)
        requires
            p.kernel * bs >= ker.len(),
            ker.len() > 0,
            bs > 0,
    ;
    let lo = p.kernel_at * bs;
    let padded = ker + fmt::zeros((p.kernel * bs - ker.len()) as nat);
    assert(e.bytes.subrange(lo, lo + ker.len()) =~= ker) by {
        let whole = e.bytes.subrange(lo, lo + p.kernel * bs);
        assert(e.bytes.subrange(lo, lo + ker.len()) =~= whole.take(ker.len() as int));
        assert(whole.take(ker.len() as int) =~= ker);
    }
    reveal(mkfs::first_super);
}

/// The padded kernel stands on the finished volume.
proof fn lemma_kernel_stands(
    d: Dev,
    o: MkfsOpts,
    p: Plan,
    lens: Seq<u32>,
    uuid: [u8; 16],
    now: Ts,
)
    requires
        planned(d, o, p, lens),
        mkfs::filled(d, o, p, lens, uuid, now).1 is Ok,
        mkfs::kernel_of(o) is Some,
    ensures
        ({
            let bs = o.blocksize;
            let ker = mkfs::kernel_of(o)->0;
            let e = mkfs::filled(d, o, p, lens, uuid, now).0;
            &&& e.bytes.len() == d.bytes.len()
            &&& 0 < p.kernel_at * bs
            &&& p.kernel_at * bs + p.kernel * bs <= e.bytes.len()
            &&& e.bytes.subrange(p.kernel_at * bs, p.kernel_at * bs + p.kernel * bs) == ker
                + fmt::zeros((p.kernel * bs - ker.len()) as nat)
        }),
{
    let bs = o.blocksize;
    let isz = o.inodesize;
    let ker = mkfs::kernel_of(o)->0;
    let a = mkfs::first_writes(p, bs, isz, mkfs::kernel_of(o), now);
    lemma_byte_places(d, o, p, lens);
    lemma_filled(d, o, p, lens, uuid, now);
    let root = mkfs::root_inode(now, mkfs::first_ino(p, bs, isz), true);
    inode::law_inode_round_trip(root, Seq::empty());
    let ki = mkfs::kernel_inode(now, p, ker.len() as u64);
    inode::law_inode_round_trip(ki, Seq::empty());
    let padded = ker + fmt::zeros((p.kernel * bs - ker.len()) as nat);
    assert(a.len() == 8);
    assert(a[5] == mkfs::at(p.kernel_at * bs, padded));
    assert(a[6] == mkfs::at(p.inodes() * bs + isz, inode::inode_bytes(ki)));
    assert(a[7] == mkfs::at(p.inodes() * bs, inode::inode_bytes(root)));
    lemma_last_clear(d, o, p, lens, uuid, p.kernel_at * bs, p.kernel * bs);
    assert forall|i: int| 5 < i < a.len() implies ((#[trigger] a[i]).0 matches Ok(q)
        ==> journal_laws::apart(
        a[5].0->Ok_0 as int,
        a[5].1.len() as int,
        q as int,
        a[i].1.len() as int,
    )) by {
        if i == 6 || i == 7 {
        }
    }
    lemma_stands(d, o, p, lens, uuid, now, 5);
}

/// The inode of the kernel reads back as it was made.
pub proof fn lemma_kernel_inode(d: Dev, o: MkfsOpts, uuid: [u8; 16], now: Ts)
    requires
        d.bytes.len() <= u64::MAX,
        mkfs::kernel_len(o) <= u64::MAX,
        mkfs::opts_flaw(o) is None,
        mkfs::made(d, o, uuid, now).1 is Ok,
        mkfs::kernel_of(o) is Some,
    ensures
        layout_of(d, o) is Ok,
        2048 <= o.blocksize,
        layout_of(d, o)->Ok_0.kernel == fmt::ceil_div(mkfs::kernel_len(o), o.blocksize as int),
        super_of(d, o, uuid).root_ino < u64::MAX,
        super_of(d, o, uuid).root_ino > 0,
        fs::inode_of(
            Vol {
                bytes: mkfs::made(d, o, uuid, now).0.bytes,
                groups: mkfs::first_map(lens_of(d, o), o.blocksize).entries,
                bs: o.blocksize,
            },
            o.inodesize,
            (super_of(d, o, uuid).root_ino + 1) as u64,
        ) == Ok::<Inode, FsError>(
            mkfs::kernel_inode(
                now,
                layout_of(d, o)->Ok_0,
                (mkfs::kernel_of(o)->0).len() as u64,
            ),
        ),
{
    lemma_planned(d, o, uuid, now);
    let bs = o.blocksize;
    let isz = o.inodesize;
    let p = layout_of(d, o)->Ok_0;
    let lens = lens_of(d, o);
    let e = mkfs::made(d, o, uuid, now).0;
    let ino = mkfs::first_ino(p, bs, isz);
    assert(super_of(d, o, uuid).root_ino == ino) by {
        reveal(mkfs::first_super);
    }
    let ki = mkfs::kernel_inode(now, p, (mkfs::kernel_of(o)->0).len() as u64);
    lemma_kernel_inode_stands(d, o, p, lens, uuid, now);
    inode::law_inode_round_trip(ki, Seq::empty());
    let b = inode::inode_bytes(ki);
    assert(b + Seq::empty() =~= b);
    let slots = bs / isz as u32;
    assert(1int * isz == isz) by (nonlinear_arith);
    lemma_second_slot(bs as int, isz as int, slots as int);
    lemma_first_slot(d, o, p, lens, 1);
    let base = p.inodes() * slots;
    assert(0 < base && base <= 0xfff_ffff * 16) by (nonlinear_arith)
        requires
            base == p.inodes() * slots,
            0 < p.inodes() <= 0xfff_ffff,
            0 < slots <= 16,
    ;
    fmt::law_address_halves(0, base as u32, 0);
}

proof fn lemma_second_slot(bs: int, isz: int, slots: int)
    requires
        slots * isz == bs,
        256 <= isz <= bs,
        slots >= 1,
    ensures
        isz % bs + 256 <= bs,
{
    if slots == 1 {
        vstd::arithmetic::div_mod::lemma_mod_self_0(bs);
    } else {
        assert(2 * isz <= bs) by (nonlinear_arith)
            requires
                slots * isz == bs,
                slots >= 2,
                isz >= 0,
        ;
        vstd::arithmetic::div_mod::lemma_small_mod(isz as nat, bs as nat);
    }
}

/// The kernel's inode stands on the finished volume.
proof fn lemma_kernel_inode_stands(
    d: Dev,
    o: MkfsOpts,
    p: Plan,
    lens: Seq<u32>,
    uuid: [u8; 16],
    now: Ts,
)
    requires
        planned(d, o, p, lens),
        mkfs::filled(d, o, p, lens, uuid, now).1 is Ok,
        mkfs::kernel_of(o) is Some,
    ensures
        ({
            let lo = p.inodes() * o.blocksize + o.inodesize;
            let e = mkfs::filled(d, o, p, lens, uuid, now).0;
            &&& e.bytes.len() == d.bytes.len()
            &&& lo + 256 <= e.bytes.len()
            &&& e.bytes.subrange(lo, lo + 256) == inode::inode_bytes(
                mkfs::kernel_inode(now, p, (mkfs::kernel_of(o)->0).len() as u64),
            )
        }),
{
    let bs = o.blocksize;
    let isz = o.inodesize;
    let ino = mkfs::first_ino(p, bs, isz);
    let root = mkfs::root_inode(now, ino, true);
    let ki = mkfs::kernel_inode(now, p, (mkfs::kernel_of(o)->0).len() as u64);
    let a = mkfs::first_writes(p, bs, isz, mkfs::kernel_of(o), now);
    lemma_byte_places(d, o, p, lens);
    lemma_filled(d, o, p, lens, uuid, now);
    inode::law_inode_round_trip(root, Seq::empty());
    inode::law_inode_round_trip(ki, Seq::empty());
    let b = inode::inode_bytes(ki);
    assert(a.len() == 8);
    assert(a[6] == mkfs::at(p.inodes() * bs + isz, b));
    assert(a[7] == mkfs::at(p.inodes() * bs, inode::inode_bytes(root)));
    assert(p.inodes() * bs + bs + 256 <= (p.length - 1) * bs) by (nonlinear_arith)
        requires
            p.inodes() + 2 <= p.length - 1,
            bs >= 256,
    ;
    lemma_last_clear(d, o, p, lens, uuid, p.inodes() * bs + isz, 256);
    assert forall|i: int| 6 < i < a.len() implies ((#[trigger] a[i]).0 matches Ok(q)
        ==> journal_laws::apart(
        a[6].0->Ok_0 as int,
        a[6].1.len() as int,
        q as int,
        a[i].1.len() as int,
    )) by {
        assert(i == 7);
    }
    lemma_stands(d, o, p, lens, uuid, now, 6);
}

/// The blocks of the kernel read back as its chunks.
pub proof fn lemma_kernel_block(d: Dev, o: MkfsOpts, uuid: [u8; 16], now: Ts, k: int)
    requires
        d.bytes.len() <= u64::MAX,
        mkfs::kernel_len(o) <= u64::MAX,
        mkfs::opts_flaw(o) is None,
        mkfs::made(d, o, uuid, now).1 is Ok,
        mkfs::kernel_of(o) is Some,
        layout_of(d, o) is Ok,
        0 <= k < layout_of(d, o)->Ok_0.kernel,
    ensures
        ({
            let p = layout_of(d, o)->Ok_0;
            let a = import::run_addr(0, p.kernel_at, k);
            &&& a is Ok
            &&& vol::rd0(
                Vol {
                    bytes: mkfs::made(d, o, uuid, now).0.bytes,
                    groups: mkfs::first_map(lens_of(d, o), o.blocksize).entries,
                    bs: o.blocksize,
                },
                a->Ok_0,
            ) == Ok::<Seq<u8>, FsError>(
                import::chunk(mkfs::kernel_of(o)->0, o.blocksize as int, k),
            )
        }),
{
    lemma_planned(d, o, uuid, now);
    let bs = o.blocksize as int;
    let p = layout_of(d, o)->Ok_0;
    let lens = lens_of(d, o);
    let e = mkfs::made(d, o, uuid, now).0;
    let ker = mkfs::kernel_of(o)->0;
    lemma_kernel_stands(d, o, p, lens, uuid, now);
    lemma_byte_places(d, o, p, lens);
    let local = (p.kernel_at + k) as u32;
    lemma_first_place(d, o, p, lens, local);
    let lo = p.kernel_at * bs;
    let n = p.kernel * bs;
    assert(local * bs == lo + k * bs && 0 <= k * bs && k * bs + bs <= n) by (nonlinear_arith)
        requires
            local == p.kernel_at + k,
            lo == p.kernel_at * bs,
            n == p.kernel * bs,
            0 <= k,
            k + 1 <= p.kernel,
            bs > 0,
    ;
    let whole = e.bytes.subrange(lo, lo + n);
    let c = import::chunk(ker, bs, k);
    assert(e.bytes.subrange(lo + k * bs, lo + k * bs + bs) =~= c) by {
        assert forall|i: int| 0 <= i < bs implies #[trigger] e.bytes.subrange(
            lo + k * bs,
            lo + k * bs + bs,
        )[i] == c[i] by {
            assert(whole[k * bs + i] == e.bytes[lo + k * bs + i]);
        }
    }
}

// --- the allocation tables ----------------------------------------------------

/// The header of group `ag` of the new volume.
pub open spec fn header_made(d: Dev, o: MkfsOpts, ag: u32) -> AgHeader {
    if ag == 0 {
        mkfs::first_header(layout_of(d, o)->Ok_0)
    } else {
        resize::new_header(ag, lens_of(d, o)[ag as int], o.blocksize)
    }
}

/// The blocks of the new volume.
pub open spec fn vol_made(d: Dev, o: MkfsOpts, uuid: [u8; 16], now: Ts) -> Vol {
    Vol {
        bytes: mkfs::made(d, o, uuid, now).0.bytes,
        groups: mkfs::first_map(lens_of(d, o), o.blocksize).entries,
        bs: o.blocksize,
    }
}

/// What is written last keeps clear of the header and the root table of the
/// first group.
proof fn lemma_front_clear(d: Dev, o: MkfsOpts, p: Plan, lens: Seq<u32>, uuid: [u8; 16], lo: int, n: int)
    requires
        planned(d, o, p, lens),
        agmap::groups_size(mkfs::first_map(lens, o.blocksize).entries) <= AGMAP_BYTES,
        o.blocksize <= lo,
        0 <= n,
        lo + n <= p.map_at * o.blocksize,
    ensures
        ({
            let c = mkfs::last_writes(
                p,
                mkfs::first_super(o, p, lens, mkfs::kernel_len(o), uuid),
                mkfs::first_map(lens, o.blocksize),
            );
            forall|i: int|
                0 <= i < c.len() ==> ((#[trigger] c[i]).0 matches Ok(q) ==> journal_laws::apart(
                    lo,
                    n,
                    q as int,
                    c[i].1.len() as int,
                ))
        }),
{
    reveal(mkfs::first_super);
    let sb = mkfs::first_super(o, p, lens, mkfs::kernel_len(o), uuid);
    let m = mkfs::first_map(lens, o.blocksize);
    lemma_byte_places(d, o, p, lens);
    journal_laws::lemma_sb_bytes_len(sb);
    let c = mkfs::last_writes(p, sb, m);
    assert(c.len() == 5);
    assert(c[0].0 == Ok::<u64, FsError>((p.map_at * o.blocksize) as u64));
    assert forall|i: int| 0 <= i < c.len() implies ((#[trigger] c[i]).0 matches Ok(q)
        ==> journal_laws::apart(lo, n, q as int, c[i].1.len() as int)) by {
        if i == 0 || i == 1 || i == 2 || i == 3 || i == 4 {
        }
    }
}

/// The writes to the first group behind the root table stay behind `lo`.
proof fn lemma_behind(d: Dev, o: MkfsOpts, p: Plan, lens: Seq<u32>, now: Ts, i: int)
    requires
        planned(d, o, p, lens),
        4 <= i < mkfs::first_writes(p, o.blocksize, o.inodesize, mkfs::kernel_of(o), now).len(),
    ensures
        ({
            let w = mkfs::first_writes(p, o.blocksize, o.inodesize, mkfs::kernel_of(o), now)[i];
            &&& w.0 is Ok
            &&& w.0->Ok_0 >= p.kernel_at * o.blocksize
            &&& w.0->Ok_0 + w.1.len() <= p.next * o.blocksize || w.0->Ok_0 >= p.inodes()
                * o.blocksize
        }),
{
    let bs = o.blocksize;
    let a = mkfs::first_writes(p, bs, o.inodesize, mkfs::kernel_of(o), now);
    lemma_byte_places(d, o, p, lens);
    let root = inode::inode_bytes(
        mkfs::root_inode(now, mkfs::first_ino(p, bs, o.inodesize), mkfs::kernel_of(o) is Some),
    );
    if let Some(ker) = mkfs::kernel_of(o) {
        let padded = ker + fmt::zeros((p.kernel * bs - ker.len()) as nat);
        let ki = inode::inode_bytes(mkfs::kernel_inode(now, p, ker.len() as u64));
        assert(a.len() == 8);
        assert(a[4] == mkfs::at(p.inodes() * bs, fmt::zeros(bs as nat)));
        assert(a[5] == mkfs::at(p.kernel_at * bs, padded));
        assert(a[6] == mkfs::at(p.inodes() * bs + o.inodesize, ki));
        assert(a[7] == mkfs::at(p.inodes() * bs, root));
        assert(i == 4 || i == 5 || i == 6 || i == 7);
    } else {
        assert(a.len() == 6);
        assert(a[4] == mkfs::at(p.inodes() * bs, fmt::zeros(bs as nat)));
        assert(a[5] == mkfs::at(p.inodes() * bs, root));
        assert(i == 4 || i == 5);
    }
}

/// Header, root table and first arena block stand on the finished volume.
proof fn lemma_first_tables_stand(
    d: Dev,
    o: MkfsOpts,
    p: Plan,
    lens: Seq<u32>,
    uuid: [u8; 16],
    now: Ts,
)
    requires
        planned(d, o, p, lens),
        mkfs::filled(d, o, p, lens, uuid, now).1 is Ok,
    ensures
        ({
            let bs = o.blocksize;
            let e = mkfs::filled(d, o, p, lens, uuid, now).0;
            &&& e.bytes.len() == d.bytes.len()
            &&& e.bytes.subrange(bs as int, 2 * bs) == fs::header_block(mkfs::first_header(p), bs)
            &&& e.bytes.subrange(2 * bs, 2 * bs + p.table * bs) == mkfs::first_table(p, bs)
            &&& e.bytes.subrange(p.arena() * bs, p.arena() * bs + bs) == mkfs::arena_block(p, bs)
            &&& 2 * bs + p.table * bs <= p.map_at * bs
        }),
{
    let bs = o.blocksize;
    let a = mkfs::first_writes(p, bs, o.inodesize, mkfs::kernel_of(o), now);
    lemma_byte_places(d, o, p, lens);
    lemma_filled(d, o, p, lens, uuid, now);
    new_tables::lemma_first_table(p, bs);
    new_tables::lemma_arena_block(p, bs);
    header::law_header_round_trip(mkfs::first_header(p), Seq::empty());
    let hb = fs::header_block(mkfs::first_header(p), bs);
    let tbl = mkfs::first_table(p, bs);
    assert(hb.len() == bs);
    assert(a[0] == mkfs::at(p.arena() * bs, mkfs::arena_block(p, bs)));
    assert(a[1] == mkfs::at(0, fmt::zeros((p.next * bs) as nat)));
    assert(a[2] == mkfs::at(bs as int, hb));
    assert(a[3] == mkfs::at(2 * bs, tbl));
    assert(2 * bs + p.table * bs <= p.map_at * bs && 0 <= p.table * bs) by (nonlinear_arith)
        requires
            p.map_at == 2 + p.table,
            p.table >= 0,
            bs > 0,
    ;
    assert(p.map_at * bs <= p.kernel_at * bs);
    lemma_front_clear(d, o, p, lens, uuid, bs as int, bs as int);
    lemma_front_clear(d, o, p, lens, uuid, 2 * bs, p.table * bs);
    lemma_last_clear(d, o, p, lens, uuid, p.arena() * bs, bs as int);
    assert forall|i: int| 2 < i < a.len() implies ((#[trigger] a[i]).0 matches Ok(q)
        ==> journal_laws::apart(bs as int, bs as int, q as int, a[i].1.len() as int)) by {
        if i > 3 {
            lemma_behind(d, o, p, lens, now, i);
        }
    }
    lemma_stands(d, o, p, lens, uuid, now, 2);
    assert forall|i: int| 3 < i < a.len() implies ((#[trigger] a[i]).0 matches Ok(q)
        ==> journal_laws::apart(2 * bs, p.table * bs, q as int, a[i].1.len() as int)) by {
        lemma_behind(d, o, p, lens, now, i);
    }
    lemma_stands(d, o, p, lens, uuid, now, 3);
    assert forall|i: int| 0 < i < a.len() implies ((#[trigger] a[i]).0 matches Ok(q)
        ==> journal_laws::apart(p.arena() * bs, bs as int, q as int, a[i].1.len() as int)) by {
        if i > 3 {
            lemma_behind(d, o, p, lens, now, i);
        } else {
            assert(i == 1 || i == 2 || i == 3);
        }
    }
    lemma_stands(d, o, p, lens, uuid, now, 0);
}

/// The writes to group `i` are three in a row.
pub proof fn lemma_later_item(lens: Seq<u32>, bs: u32, n: int, i: int, k: int)
    requires
        1 <= i < n,
        0 <= k < 3,
    ensures
        mkfs::later_writes(lens, bs, n).len() == 3 * (n - 1),
        mkfs::later_writes(lens, bs, n)[3 * (i - 1) + k] == mkfs::group_writes(lens, bs, i)[k],
    decreases n,
{
    let rest = mkfs::later_writes(lens, bs, n - 1);
    if i < n - 1 {
        lemma_later_item(lens, bs, n - 1, i, k);
    } else {
        lemma_later_len(lens, bs, n - 1);
    }
}

pub proof fn lemma_later_len(lens: Seq<u32>, bs: u32, n: int)
    requires
        1 <= n,
    ensures
        mkfs::later_writes(lens, bs, n).len() == 3 * (n - 1),
    decreases n,
{
    if n > 1 {
        lemma_later_len(lens, bs, n - 1);
    }
}

/// Where group `i` lies, in bytes, and that its metadata fits.
proof fn lemma_group_bytes(d: Dev, o: MkfsOpts, p: Plan, lens: Seq<u32>, i: int)
    requires
        planned(d, o, p, lens),
        1 <= i < lens.len(),
        lens[i] > 1,
    ensures
        ({
            let bs = o.blocksize;
            let off = mkfs::blocks_before(lens, i) * bs;
            let tb = header::table_blocks(lens[i], bs);
            &&& p.length * bs <= off
            &&& off + lens[i] * bs == mkfs::blocks_before(lens, i + 1) * bs
            &&& mkfs::blocks_before(lens, i + 1) * bs <= d.bytes.len()
            &&& 1 <= tb
            &&& 1 + tb <= lens[i]
            &&& bs + tb * bs == (1 + tb) * bs <= lens[i] * bs
            &&& 0 <= tb * bs
        }),
{
    let bs = o.blocksize as int;
    let tb = header::table_blocks(lens[i], o.blocksize);
    let a = mkfs::blocks_before(lens, i);
    let b = mkfs::blocks_before(lens, i + 1);
    let total = mkfs::blocks_before(lens, lens.len() as int);
    resize::lemma_table_small(lens[i], o.blocksize);
    reveal_with_fuel(mkfs::blocks_before, 2);
    mkfs::lemma_before_monotonic(lens, 1, i);
    mkfs::lemma_before_monotonic(lens, i + 1, lens.len() as int);
    assert(b == a + lens[i]);
    assert(p.length * bs <= a * bs && a * bs + lens[i] * bs == b * bs && b * bs <= total * bs && bs
        + tb * bs == (1 + tb) * bs && (1 + tb) * bs <= lens[i] * bs && 0 <= tb * bs)
        by (nonlinear_arith)
        requires
            0 <= p.length <= a,
            b == a + lens[i],
            0 <= b <= total,
            0 <= tb,
            1 + tb <= lens[i],
            bs > 0,
    ;
}

/// The writes to group `i` stay in it.
pub proof fn lemma_group_inside(d: Dev, o: MkfsOpts, p: Plan, lens: Seq<u32>, i: int, k: int)
    requires
        planned(d, o, p, lens),
        1 <= i < lens.len(),
        lens[i] > 1,
        0 <= k < 3,
    ensures
        ({
            let bs = o.blocksize;
            let w = mkfs::group_writes(lens, bs, i)[k];
            let off = mkfs::blocks_before(lens, i) * bs;
            let tb = header::table_blocks(lens[i], bs);
            &&& w.0 is Ok
            &&& w.0->Ok_0 == if k == 2 {
                off + bs
            } else {
                off
            }
            &&& w.1.len() == if k == 0 {
                (1 + tb) * bs
            } else if k == 1 {
                bs as int
            } else {
                tb * bs
            }
            &&& w.0->Ok_0 + w.1.len() <= mkfs::blocks_before(lens, i + 1) * bs
        }),
{
    let bs = o.blocksize;
    let tb = header::table_blocks(lens[i], bs);
    lemma_group_bytes(d, o, p, lens, i);
    new_tables::lemma_base_table(lens[i], bs, 1 + tb);
    header::law_header_round_trip(resize::new_header(i as u32, lens[i], bs), Seq::empty());
    assert(k == 0 || k == 1 || k == 2);
}

/// Header and root table of a later group stand on the finished volume.
proof fn lemma_later_stands(
    d: Dev,
    o: MkfsOpts,
    p: Plan,
    lens: Seq<u32>,
    uuid: [u8; 16],
    now: Ts,
    g: int,
    k: int,
)
    requires
        planned(d, o, p, lens),
        mkfs::filled(d, o, p, lens, uuid, now).1 is Ok,
        forall|i: int| 1 <= i < lens.len() ==> #[trigger] lens[i] > 1,
        1 <= g < lens.len(),
        1 <= k < 3,
    ensures
        ({
            let bs = o.blocksize;
            let w = mkfs::group_writes(lens, bs, g)[k];
            let e = mkfs::filled(d, o, p, lens, uuid, now).0;
            &&& e.bytes.len() == d.bytes.len()
            &&& w.0->Ok_0 + w.1.len() <= e.bytes.len()
            &&& e.bytes.subrange(w.0->Ok_0 as int, w.0->Ok_0 + w.1.len()) == w.1
        }),
{
    let bs = o.blocksize;
    let n = lens.len() as int;
    let a = mkfs::first_writes(p, bs, o.inodesize, mkfs::kernel_of(o), now);
    let b = mkfs::later_writes(lens, bs, n);
    let sb = mkfs::first_super(o, p, lens, mkfs::kernel_len(o), uuid);
    let m = mkfs::first_map(lens, bs);
    let c = mkfs::last_writes(p, sb, m);
    let all = all_writes(o, p, lens, uuid, now);
    let at = a.len() + 3 * (g - 1) + k;
    let w = mkfs::group_writes(lens, bs, g)[k];
    lemma_filled(d, o, p, lens, uuid, now);
    lemma_byte_places(d, o, p, lens);
    lemma_later_item(lens, bs, n, g, k);
    lemma_group_inside(d, o, p, lens, g, k);
    lemma_group_bytes(d, o, p, lens, g);
    assert(all[at] == w);
    assert forall|i: int| at < i < all.len() implies ((#[trigger] all[i]).0 matches Ok(q)
        ==> journal_laws::apart(
        all[at].0->Ok_0 as int,
        all[at].1.len() as int,
        q as int,
        all[i].1.len() as int,
    )) by {
        if i < a.len() + b.len() {
            let x = i - a.len();
            let h = x / 3 + 1;
            assert(all[i] == b[x]);
            lemma_later_item(lens, bs, n, h, x % 3);
            lemma_group_inside(d, o, p, lens, h, x % 3);
            lemma_group_bytes(d, o, p, lens, h);
            if h > g {
                mkfs::lemma_before_monotonic(lens, g + 1, h);
                assert(mkfs::blocks_before(lens, g + 1) * bs <= mkfs::blocks_before(lens, h) * bs)
                    by (nonlinear_arith)
                    requires
                        mkfs::blocks_before(lens, g + 1) <= mkfs::blocks_before(lens, h),
                        bs > 0,
                ;
            }
        } else {
            lemma_last_inside(d, o, p, lens, uuid, i - a.len() - b.len());
            assert(all[i] == c[i - a.len() - b.len()]);
        }
    }
    journal_laws::lemma_writes_hit(d, all, at as int);
    journal_laws::lemma_writes_len(d, all);
}

/// What is written last stays in the first group.
pub proof fn lemma_last_inside(d: Dev, o: MkfsOpts, p: Plan, lens: Seq<u32>, uuid: [u8; 16], i: int)
    requires
        planned(d, o, p, lens),
        agmap::groups_size(mkfs::first_map(lens, o.blocksize).entries) <= AGMAP_BYTES,
        0 <= i < 5,
    ensures
        ({
            let w = mkfs::last_writes(
                p,
                mkfs::first_super(o, p, lens, mkfs::kernel_len(o), uuid),
                mkfs::first_map(lens, o.blocksize),
            )[i];
            w.0 matches Ok(q) && q + w.1.len() <= p.length * o.blocksize
        }),
{
    reveal(mkfs::first_super);
    let sb = mkfs::first_super(o, p, lens, mkfs::kernel_len(o), uuid);
    let m = mkfs::first_map(lens, o.blocksize);
    lemma_byte_places(d, o, p, lens);
    journal_laws::lemma_sb_bytes_len(sb);
    agmap::lemma_image_len(m, AGMAP_BYTES as int);
    assert(i == 0 || i == 1 || i == 2 || i == 3 || i == 4);
}

/// The place of a block of group `g`.
proof fn lemma_group_place(d: Dev, o: MkfsOpts, p: Plan, lens: Seq<u32>, g: u32, local: u32)
    requires
        planned(d, o, p, lens),
        1 <= g < lens.len(),
        lens[g as int] > 1,
        local < lens[g as int],
    ensures
        vol::place(
            mkfs::first_map(lens, o.blocksize).entries,
            o.blocksize,
            fmt::addr_of(g, local),
        ) == Ok::<u64, FsError>(
            (mkfs::blocks_before(lens, g as int) * o.blocksize + local * o.blocksize) as u64,
        ),
        0 <= mkfs::blocks_before(lens, g as int) * o.blocksize,
        0 <= local * o.blocksize,
        mkfs::blocks_before(lens, g as int) * o.blocksize + local * o.blocksize + o.blocksize
            <= d.bytes.len(),
{
    let bs = o.blocksize;
    let gs = mkfs::first_map(lens, bs).entries;
    let off = mkfs::blocks_before(lens, g as int) * bs;
    lemma_byte_places(d, o, p, lens);
    lemma_group_bytes(d, o, p, lens, g as int);
    fmt::law_address_halves(g, local, 0);
    let w = agmap::AgSegment { ag_block: 0, blocks: lens[g as int], dev_offset: off as u64 };
    assert(gs[g as int].segs =~= seq![w]);
    assert(agmap::find_seg(seq![w], local) == Some(w));
    assert(0 <= local * bs && local * bs + bs <= lens[g as int] * bs) by (nonlinear_arith)
        requires
            0 <= local < lens[g as int],
            bs > 0,
    ;
}

/// Every group but the first has room for its metadata.
pub proof fn lemma_later_lengths(d: Dev, o: MkfsOpts, p: Plan)
    requires
        planned(d, o, p, lens_of(d, o)),
    ensures
        forall|i: int| 1 <= i < lens_of(d, o).len() ==> #[trigger] lens_of(d, o)[i] > 1,
{
    let bs = o.blocksize as int;
    let n = d.bytes.len() as int;
    let size = n - n % bs;
    let max = MAX_AG_BYTES as int / bs;
    mkfs::lemma_max_blocks(o.blocksize);
    assert(max >= 2) by (nonlinear_arith)
        requires
            max == 0x10_0000_0000int / bs,
            0 < bs <= 0x8000_0000,
    ;
    if size / bs > 0 {
        mkfs::law_groups_cover_the_device(size / bs, max);
    }
}

/// The root table of the first group, on the finished volume.
proof fn lemma_first_shows(d: Dev, o: MkfsOpts, p: Plan, lens: Seq<u32>, v: Vol)
    requires
        planned(d, o, p, lens),
        v.bs == o.blocksize,
        v.groups == mkfs::first_map(lens, o.blocksize).entries,
        v.bytes.len() == d.bytes.len(),
        v.bytes.subrange(2 * v.bs, 2 * v.bs + p.table * v.bs) == mkfs::first_table(p, v.bs),
    ensures
        new_tables::shows(v, mkfs::first_header(p), mkfs::first_table(p, v.bs)),
{
    let b = v.bs as int;
    let hdr = mkfs::first_header(p);
    let tbl = mkfs::first_table(p, v.bs);
    lemma_byte_places(d, o, p, lens);
    resize::lemma_table_small(p.length, v.bs);
    new_tables::lemma_first_table(p, v.bs);
    assert(2 * b + p.table * b <= p.map_at * b) by (nonlinear_arith)
        requires
            p.map_at == 2 + p.table,
    ;
    assert forall|j: int|
        0 <= j < header::table_blocks(hdr.length, v.bs) implies #[trigger] vol::rd0(
        v,
        fmt::addr_of(hdr.ag_num, (hdr.alloc_root + j) as u32),
    ) == Ok::<Seq<u8>, FsError>(tbl.subrange(j * v.bs, j * v.bs + v.bs)) by {
        lemma_first_place(d, o, p, lens, (2 + j) as u32);
        lemma_part_of(v.bytes, 2 * b, tbl, b, j, p.table as int);
        assert((2 + j) * b == 2 * b + j * b) by (nonlinear_arith);
    }
}

/// The root table of a later group, on the finished volume.
proof fn lemma_later_shows(d: Dev, o: MkfsOpts, p: Plan, lens: Seq<u32>, v: Vol, ag: u32)
    requires
        planned(d, o, p, lens),
        1 <= ag < lens.len(),
        lens[ag as int] > 1,
        v.bs == o.blocksize,
        v.groups == mkfs::first_map(lens, o.blocksize).entries,
        v.bytes.len() == d.bytes.len(),
        ({
            let len = lens[ag as int];
            let tb = header::table_blocks(len, v.bs);
            let lo = mkfs::blocks_before(lens, ag as int) * v.bs + v.bs;
            v.bytes.subrange(lo, lo + tb * v.bs) == resize::base_table(len, v.bs, 1 + tb)
        }),
    ensures
        ({
            let len = lens[ag as int];
            new_tables::shows(
                v,
                resize::new_header(ag, len, v.bs),
                resize::base_table(len, v.bs, 1 + header::table_blocks(len, v.bs)),
            )
        }),
{
    let b = v.bs as int;
    let len = lens[ag as int];
    let tb = header::table_blocks(len, v.bs);
    let hdr = resize::new_header(ag, len, v.bs);
    let tbl = resize::base_table(len, v.bs, 1 + tb);
    let off = mkfs::blocks_before(lens, ag as int) * b;
    lemma_byte_places(d, o, p, lens);
    lemma_group_bytes(d, o, p, lens, ag as int);
    new_tables::lemma_base_table(len, v.bs, 1 + tb);
    assert forall|j: int|
        0 <= j < header::table_blocks(hdr.length, v.bs) implies #[trigger] vol::rd0(
        v,
        fmt::addr_of(hdr.ag_num, (hdr.alloc_root + j) as u32),
    ) == Ok::<Seq<u8>, FsError>(tbl.subrange(j * v.bs, j * v.bs + v.bs)) by {
        lemma_group_place(d, o, p, lens, ag, (1 + j) as u32);
        lemma_part_of(v.bytes, off + b, tbl, b, j, tb);
        assert((1 + j) * b == b + j * b) by (nonlinear_arith);
    }
}

/// The first group of a finished volume.
pub proof fn lemma_first_made(d: Dev, o: MkfsOpts, p: Plan, lens: Seq<u32>, uuid: [u8; 16], now: Ts, v: Vol)
    requires
        planned(d, o, p, lens),
        mkfs::filled(d, o, p, lens, uuid, now).1 is Ok,
        v.bs == o.blocksize,
        v.groups == mkfs::first_map(lens, o.blocksize).entries,
        v.bytes == mkfs::filled(d, o, p, lens, uuid, now).0.bytes,
    ensures
        fs::header_of(v, Map::empty(), 0) == Ok::<AgHeader, FsError>(mkfs::first_header(p)),
        tables::sound(v, Map::empty(), mkfs::first_header(p)),
        new_tables::shows(v, mkfs::first_header(p), mkfs::first_table(p, v.bs)),
        vol::rd0(v, fmt::addr_of(0, p.arena())) == Ok::<Seq<u8>, FsError>(
            mkfs::arena_block(p, v.bs),
        ),
{
    lemma_byte_places(d, o, p, lens);
    lemma_first_tables_stand(d, o, p, lens, uuid, now);
    lemma_first_place(d, o, p, lens, 1);
    lemma_first_place(d, o, p, lens, p.arena());
    lemma_first_shows(d, o, p, lens, v);
    new_tables::lemma_header_reads(v, mkfs::first_header(p));
    new_tables::lemma_first_group_sound(v, p);
}

/// A later group of a finished volume.
pub proof fn lemma_later_made(
    d: Dev,
    o: MkfsOpts,
    p: Plan,
    lens: Seq<u32>,
    uuid: [u8; 16],
    now: Ts,
    v: Vol,
    ag: u32,
)
    requires
        planned(d, o, p, lens),
        mkfs::filled(d, o, p, lens, uuid, now).1 is Ok,
        forall|i: int| 1 <= i < lens.len() ==> #[trigger] lens[i] > 1,
        1 <= ag < lens.len(),
        v.bs == o.blocksize,
        v.groups == mkfs::first_map(lens, o.blocksize).entries,
        v.bytes == mkfs::filled(d, o, p, lens, uuid, now).0.bytes,
    ensures
        fs::header_of(v, Map::empty(), ag) == Ok::<AgHeader, FsError>(
            resize::new_header(ag, lens[ag as int], v.bs),
        ),
        tables::sound(v, Map::empty(), resize::new_header(ag, lens[ag as int], v.bs)),
        new_tables::shows(
            v,
            resize::new_header(ag, lens[ag as int], v.bs),
            resize::base_table(
                lens[ag as int],
                v.bs,
                1 + header::table_blocks(lens[ag as int], v.bs),
            ),
        ),
{
    let i = ag as int;
    assert(lens[i] > 1);
    lemma_group_bytes(d, o, p, lens, i);
    lemma_group_inside(d, o, p, lens, i, 1);
    lemma_group_inside(d, o, p, lens, i, 2);
    lemma_later_stands(d, o, p, lens, uuid, now, i, 1);
    lemma_later_stands(d, o, p, lens, uuid, now, i, 2);
    lemma_group_place(d, o, p, lens, ag, 0);
    assert(0int * v.bs == 0) by (nonlinear_arith);
    lemma_later_shows(d, o, p, lens, v, ag);
    new_tables::lemma_header_reads(v, resize::new_header(ag, lens[i], v.bs));
    new_tables::lemma_new_group_sound(v, ag, lens[i]);
}

/// Every group of a finished volume has the header that was planned, and sound
/// tables.
pub proof fn law_made_tables_are_sound(d: Dev, o: MkfsOpts, uuid: [u8; 16], now: Ts, ag: u32)
    requires
        d.bytes.len() <= u64::MAX,
        mkfs::kernel_len(o) <= u64::MAX,
        mkfs::opts_flaw(o) is None,
        mkfs::made(d, o, uuid, now).1 is Ok,
        ag < lens_of(d, o).len(),
    ensures
        ({
            let v = vol_made(d, o, uuid, now);
            let hdr = header_made(d, o, ag);
            &&& hdr.ag_num == ag
            &&& fs::header_of(v, Map::empty(), ag) == Ok::<AgHeader, FsError>(hdr)
            &&& tables::sound(v, Map::empty(), hdr)
        }),
{
    lemma_planned(d, o, uuid, now);
    let p = layout_of(d, o)->Ok_0;
    let lens = lens_of(d, o);
    let v = vol_made(d, o, uuid, now);
    if ag == 0 {
        lemma_first_made(d, o, p, lens, uuid, now, v);
    } else {
        lemma_later_lengths(d, o, p);
        lemma_later_made(d, o, p, lens, uuid, now, v, ag);
    }
}

/// A block of a part of the device.
pub proof fn lemma_part_of(bytes: Seq<u8>, lo: int, part: Seq<u8>, bs: int, j: int, n: int)
    requires
        0 <= lo,
        0 <= j < n,
        0 < bs,
        part.len() == n * bs,
        lo + n * bs <= bytes.len(),
        bytes.subrange(lo, lo + n * bs) == part,
    ensures
        0 <= j * bs,
        j * bs + bs <= n * bs,
        bytes.subrange(lo + j * bs, lo + j * bs + bs) == part.subrange(j * bs, j * bs + bs),
{
    assert(0 <= j * bs && j * bs + bs <= n * bs) by (nonlinear_arith)
        requires
            0 <= j,
            j + 1 <= n,
            0 < bs,
    ;
    assert(bytes.subrange(lo + j * bs, lo + j * bs + bs) =~= part.subrange(j * bs, j * bs + bs));
}

/// A finished volume is anchored: its superblock, the backup and both copies
/// of the AG map lie in the first group, which does not move.
pub proof fn law_made_volume_is_anchored(d: Dev, o: MkfsOpts, uuid: [u8; 16], now: Ts)
    requires
        d.bytes.len() <= u64::MAX,
        mkfs::kernel_len(o) <= u64::MAX,
        mkfs::opts_flaw(o) is None,
        mkfs::made(d, o, uuid, now).1 is Ok,
    ensures
        resize_laws::anchored(
            Img {
                d: mkfs::made(d, o, uuid, now).0,
                sb: super_of(d, o, uuid),
                m: mkfs::first_map(lens_of(d, o), o.blocksize),
            },
        ),
{
    lemma_planned(d, o, uuid, now);
    reveal(mkfs::first_super);
    let bs = o.blocksize;
    let p = layout_of(d, o)->Ok_0;
    let lens = lens_of(d, o);
    let gs = mkfs::first_map(lens, bs).entries;
    let w = agmap::AgSegment { ag_block: 0, blocks: p.length, dev_offset: 0 };
    lemma_byte_places(d, o, p, lens);
    assert(mkfs::blocks_before(lens, 0) * bs == 0) by (nonlinear_arith)
        requires
            mkfs::blocks_before(lens, 0) == 0,
    ;
    assert(gs[0].segs =~= seq![w]);
    assert(gs[0].segs[0] == w);
    assert(resize::seg_end(w, bs) == p.length * bs);
    assert(resize_laws::held_by_first(gs, bs, 0, 512));
    assert(resize_laws::held_by_first(gs, bs, p.map_at * bs, AGMAP_BYTES as int));
    assert(resize_laws::held_by_first(gs, bs, p.map_at * bs + AGMAP_BYTES, AGMAP_BYTES as int));
    assert(resize_laws::held_by_first(gs, bs, (p.length - 1) * bs, 512));
}

} // verus!
