//! A volume that was made is the one that was asked for: what its superblock,
//! its map and its first inodes hold, from the options alone.

use vstd::prelude::*;

use crate::agmap::{Group, Groups};
use crate::device;
use crate::device::Dev;
use crate::dir;
use crate::error::FsError;
use crate::fmt;
use crate::fs;
use crate::fsck;
use crate::header;
use crate::inode;
use crate::inode::{Extent, Inode, Ts};
use crate::mapping;
use crate::mkfs;
use crate::mkfs::{MkfsOpts, MkfsSummary, Plan};
use crate::mkfs_clean;
use crate::mkfs_laws;
use crate::superblock;
use crate::superblock::Superblock;
use crate::utf16;
use crate::vol::Vol;

verus! {

// --- the label ----------------------------------------------------------------

/// No character but NUL has a zero code unit.
pub proof fn law_only_nul_encodes_to_zero(s: Seq<char>)
    requires
        forall|i: int| 0 <= i < s.len() ==> (#[trigger] s[i]) as u32 != 0,
    ensures
        forall|i: int|
            0 <= i < utf16::encode_utf16(s).len() ==> #[trigger] utf16::encode_utf16(s)[i] != 0,
    decreases s.len(),
{
    if s.len() > 0 {
        let t = s.skip(1);
        assert forall|i: int| 0 <= i < t.len() implies (#[trigger] t[i]) as u32 != 0 by {
            assert(t[i] == s[i + 1]);
        }
        law_only_nul_encodes_to_zero(t);
        let c = utf16::char_units(s[0]);
        let n = s[0] as u32;
        vstd::utf8::char_is_scalar(s[0]);
        assert(s[0] as u32 != 0);
        let u = utf16::encode_utf16(s);
        let r = utf16::encode_utf16(t);
        assert(u == c + r);
        assert forall|i: int| 0 <= i < u.len() implies #[trigger] u[i] != 0 by {
            if i >= c.len() {
                assert(u[i] == r[i - c.len()]);
            } else {
                assert(u[i] == c[i]);
            }
        }
    }
}

/// A NUL-padded name ends at its first zero.
pub proof fn law_name_ends_at_the_first_zero(u: Seq<u16>, n: int)
    requires
        0 <= n <= u.len(),
        forall|i: int| 0 <= i < n ==> #[trigger] u[i] != 0,
        n < u.len() ==> u[n] == 0,
    ensures
        superblock::name_len(u) == n,
    decreases u.len(),
{
    if n > 0 {
        let t = u.skip(1);
        assert forall|i: int| 0 <= i < n - 1 implies #[trigger] t[i] != 0 by {
            assert(t[i] == u[i + 1]);
        }
        assert(u[0] != 0);
        law_name_ends_at_the_first_zero(t, n - 1);
    }
}

spec fn units_to(s: Seq<u16>, n: int) -> [u16; 16]
    decreases n,
{
    if n <= 0 {
        arbitrary()
    } else {
        vstd::array::spec_array_update(units_to(s, n - 1), n - 1, s[n - 1])
    }
}

proof fn lemma_units_to(s: Seq<u16>, n: int)
    requires
        0 <= n <= 16,
        s.len() == 16,
    ensures
        forall|i: int| 0 <= i < n ==> units_to(s, n)@[i] == s[i],
    decreases n,
{
    if n > 0 {
        lemma_units_to(s, n - 1);
    }
}

/// There is an array for every 16 code units.
pub proof fn lemma_disk_name(s: Seq<u16>)
    requires
        s.len() == 16,
    ensures
        mkfs::disk_name(s)@ == s,
{
    lemma_units_to(s, 16);
    assert(units_to(s, 16)@ =~= s);
}

// --- the device ---------------------------------------------------------------

/// Whether a volume was made on `d` as `o` asks, and reads as `sb` and `m`.
pub open spec fn made_as(
    d: Dev,
    o: MkfsOpts,
    uuid: [u8; 16],
    now: Ts,
    sb: Superblock,
    m: Groups,
) -> bool {
    &&& d.bytes.len() <= u64::MAX
    &&& o.kernel matches Some(k) ==> k@.len() <= u64::MAX
    &&& mkfs::formatted(d, o, uuid, now).1 is Ok
    &&& fs::loaded(mkfs::formatted(d, o, uuid, now).0.bytes) == Ok::<
        (Superblock, Groups),
        FsError,
    >((sb, m))
}

/// What a finished volume is made of.
#[verifier::rlimit(60)]
#[verifier::spinoff_prover]
proof fn lemma_made(d: Dev, o: MkfsOpts, uuid: [u8; 16], now: Ts)
    requires
        d.bytes.len() <= u64::MAX,
        o.kernel matches Some(k) ==> k@.len() <= u64::MAX,
        mkfs::formatted(d, o, uuid, now).1 is Ok,
    ensures
        ({
            let d1 = mkfs::sized(d, o);
            let p = mkfs_laws::layout_of(d1, o);
            &&& mkfs::opts_flaw(o) is None
            &&& mkfs::formatted(d, o, uuid, now) == mkfs::made(d1, o, uuid, now)
            &&& d1.bytes.len() <= u64::MAX
            &&& mkfs::kernel_len(o) <= u64::MAX
            &&& p is Ok
            &&& mkfs_laws::planned(d1, o, p->Ok_0, mkfs_laws::lens_of(d1, o))
            &&& fs::loaded(mkfs::formatted(d, o, uuid, now).0.bytes) == Ok::<
                (Superblock, Groups),
                FsError,
            >(
                (
                    mkfs_laws::super_of(d1, o, uuid),
                    mkfs::first_map(mkfs_laws::lens_of(d1, o), o.blocksize),
                ),
            )
            &&& mkfs::formatted(d, o, uuid, now).0.bytes.len() == d1.bytes.len()
        }),
{
    let d1 = mkfs::sized(d, o);
    mkfs_laws::lemma_planned(d1, o, uuid, now);
    mkfs_laws::law_made_volume_loads(d1, o, uuid, now);
    let p = mkfs_laws::layout_of(d1, o)->Ok_0;
    let lens = mkfs_laws::lens_of(d1, o);
    mkfs_laws::lemma_filled(d1, o, p, lens, uuid, now);
    crate::journal_laws::lemma_writes_len(d1, mkfs_laws::all_writes(o, p, lens, uuid, now));
}

/// The device has the size that was asked for, cut to whole blocks; its own
/// where none was. What is asked of the sizes is checked: blocks are powers of
/// two from 2048 bytes on, inodes powers of two from 256 bytes up to a block,
/// no more than 16 to a block, and the whole is 8 MiB or more.
pub proof fn law_made_device_has_the_size(d: Dev, o: MkfsOpts, uuid: [u8; 16], now: Ts)
    requires
        d.bytes.len() <= u64::MAX,
        o.kernel matches Some(k) ==> k@.len() <= u64::MAX,
        mkfs::formatted(d, o, uuid, now).1 is Ok,
    ensures
        ({
            let n = mkfs::formatted(d, o, uuid, now).0.bytes.len();
            &&& o.size matches Some(s) ==> n <= s < n + o.blocksize && n % o.blocksize as nat == 0
            &&& o.size is None ==> n == d.bytes.len()
            &&& n >= 0x80_0000
            &&& o.blocksize >= 2048
            &&& superblock::is_pow2(o.blocksize as int)
            &&& superblock::is_pow2(o.inodesize as int)
            &&& 256 <= o.inodesize <= o.blocksize
            &&& o.blocksize <= 16 * o.inodesize
        }),
{
    lemma_made(d, o, uuid, now);
    let bs = o.blocksize as int;
    if let Some(s) = o.size {
        let n = s as int - s as int % bs;
        let q = s as int / bs;
        assert(n == bs * q && 0 <= n && n <= s && s < n + bs) by (nonlinear_arith)
            requires
                n == s - (s as int) % bs,
                q == (s as int) / bs,
                bs > 0,
                s >= 0,
        ;
        assert(n % bs == 0) by (nonlinear_arith)
            requires
                n == bs * q,
                bs > 0,
        ;
    }
    let slots = o.blocksize / o.inodesize as u32;
    assert(o.blocksize <= 16 * o.inodesize) by (nonlinear_arith)
        requires
            slots * o.inodesize == o.blocksize,
            slots <= 16,
            o.inodesize >= 0,
    ;
}

/// The label of the volume is the one that was asked for: its code units stand
/// in the superblock in order, as many as there is room for, with zeros behind.
/// So a label without NUL that fits reads back.
#[verifier::rlimit(60)]
#[verifier::spinoff_prover]
pub proof fn law_made_label_is_the_one_asked(
    d: Dev,
    o: MkfsOpts,
    uuid: [u8; 16],
    now: Ts,
    sb: Superblock,
    m: Groups,
)
    requires
        made_as(d, o, uuid, now, sb, m),
    ensures
        ({
            let u = utf16::encode_utf16(o.label@);
            let plain = forall|i: int| 0 <= i < o.label@.len() ==> (#[trigger] o.label@[i]) as u32 != 0;
            &&& forall|i: int| 0 <= i < 16 && i < u.len() ==> #[trigger] sb.disk_name@[i] == u[i]
            &&& forall|i: int| u.len() <= i < 16 ==> #[trigger] sb.disk_name@[i] == 0
            &&& plain && u.len() <= 16 ==> fsck::label_of(sb) == o.label@
            &&& plain && u.len() <= 16 ==> utf16::decode_utf16(
                sb.disk_name@.take(superblock::name_len(sb.disk_name@) as int),
            ) == utf16::decode_utf16(u)
            &&& plain && u.len() > 16 ==> fsck::label_of(sb) == utf16::decode_utf16(u.take(16))
        }),
{
    lemma_made(d, o, uuid, now);
    reveal(mkfs::first_super);
    let u = utf16::encode_utf16(o.label@);
    let w = mkfs::label_units(o.label@);
    lemma_disk_name(w);
    assert(sb.disk_name@ == w);
    if forall|i: int| 0 <= i < o.label@.len() ==> (#[trigger] o.label@[i]) as u32 != 0 {
        law_only_nul_encodes_to_zero(o.label@);
        let n = if u.len() <= 16 {
            u.len() as int
        } else {
            16
        };
        assert forall|i: int| 0 <= i < n implies #[trigger] w[i] != 0 by {
            assert(w[i] == u[i]);
        }
        law_name_ends_at_the_first_zero(w, n);
        assert(w.take(n) =~= u.take(n));
        if u.len() <= 16 {
            assert(u.take(n) =~= u);
            utf16::law_utf16_round_trip(o.label@);
        }
    }
}

// --- the groups ---------------------------------------------------------------

/// Whether the groups follow one another from the start of the device, each in
/// one piece, the first one alone immovable.
pub open spec fn in_a_row(gs: Seq<Group>, bs: u32) -> bool {
    forall|i: int|
        0 <= i < gs.len() ==> {
            let g = #[trigger] gs[i];
            &&& g.flags == if i == 0 {
                3u16
            } else {
                1u16
            }
            &&& g.segs.len() == 1
            &&& g.segs[0].ag_block == 0
            &&& g.segs[0].blocks == g.length
            &&& i == 0 ==> g.segs[0].dev_offset == 0
            &&& i > 0 ==> g.segs[0].dev_offset == gs[i - 1].segs[0].dev_offset + gs[i
                - 1].segs[0].blocks * bs
        }
}

/// The groups of a volume that was made take up all whole blocks of the device,
/// one after the other. All but the last are 64 GiB; the last takes the rest,
/// and with it less than 1024 blocks that make no group of their own.
#[verifier::rlimit(60)]
#[verifier::spinoff_prover]
pub proof fn law_made_groups_fill_the_device(
    d: Dev,
    o: MkfsOpts,
    uuid: [u8; 16],
    now: Ts,
    sb: Superblock,
    m: Groups,
)
    requires
        made_as(d, o, uuid, now, sb, m),
    ensures
        ({
            let bs = o.blocksize;
            let n = mkfs::formatted(d, o, uuid, now).0.bytes.len();
            let last = m.entries[m.entries.len() - 1];
            &&& m.entries.len() >= 1
            &&& m.gen == 1
            &&& sb.next_ag == m.entries.len()
            &&& in_a_row(m.entries, bs)
            &&& last.segs[0].dev_offset + last.length * bs <= n < last.segs[0].dev_offset
                + last.length * bs + bs
            &&& forall|i: int|
                0 <= i < m.entries.len() - 1 ==> (#[trigger] m.entries[i]).length * bs
                    == 0x10_0000_0000
            &&& forall|i: int|
                0 <= i < m.entries.len() ==> (#[trigger] m.entries[i]).length * bs
                    < 0x10_0000_0000 + 1024 * bs
            &&& sb.free_blocks + sb.rsvd_blocks + sb.full_blocks == n / bs as nat
        }),
{
    lemma_made(d, o, uuid, now);
    let bs = o.blocksize;
    let d1 = mkfs::sized(d, o);
    let p = mkfs_laws::layout_of(d1, o)->Ok_0;
    let lens = mkfs_laws::lens_of(d1, o);
    let n = d1.bytes.len() as int;
    let size = n - n % bs as int;
    let q = n / bs as int;
    let k = lens.len() as int;
    let max = 0x10_0000_0000int / bs as int;
    assert(size == q * bs && n < q * bs + bs && q * bs <= n) by (nonlinear_arith)
        requires
            size == n - n % (bs as int),
            q == n / (bs as int),
            bs > 0,
    ;
    assert(size / bs as int == q) by {
        vstd::arithmetic::div_mod::lemma_div_by_multiple(q, bs as int);
    }
    mkfs::lemma_max_blocks(bs);
    assert(q > 0) by (nonlinear_arith)
        requires
            q * bs >= 0x80_0000,
            bs > 0,
    ;
    mkfs::law_groups_cover_the_device(q, max);
    mkfs_laws::lemma_later_lengths(d1, o, p);
    mkfs_laws::lemma_filled(d1, o, p, lens, uuid, now);
    mkfs_clean::lemma_entries_bound(m.entries);
    mkfs_clean::lemma_later_free(lens, bs, k);
    mkfs_clean::lemma_total(d1, o, p, lens);
    assert(max * bs == 0x10_0000_0000) by {
        lemma_pow2_cuts(bs);
    }
    assert forall|i: int| 0 <= i < k implies mkfs::blocks_before(lens, i) * bs <= u64::MAX
        && mkfs::blocks_before(lens, i) >= 0 by {
        mkfs::lemma_before_monotonic(lens, i, k);
        let b = mkfs::blocks_before(lens, i);
        assert(b * bs <= q * bs) by (nonlinear_arith)
            requires
                b <= q,
                bs > 0,
        ;
    }
    let gs = m.entries;
    assert forall|i: int| 0 <= i < gs.len() implies {
        let g = #[trigger] gs[i];
        &&& g.flags == if i == 0 {
            3u16
        } else {
            1u16
        }
        &&& g.segs.len() == 1
        &&& g.segs[0].ag_block == 0
        &&& g.segs[0].blocks == g.length
        &&& i == 0 ==> g.segs[0].dev_offset == 0
        &&& i > 0 ==> g.segs[0].dev_offset == gs[i - 1].segs[0].dev_offset + gs[i - 1].segs[0].blocks
            * bs
    } by {
        let b = mkfs::blocks_before(lens, i);
        assert(b * bs >= 0) by (nonlinear_arith)
            requires
                b >= 0,
        ;
        if i == 0 {
            assert(b * bs == 0) by (nonlinear_arith)
                requires
                    b == 0,
            ;
        } else {
            let a = mkfs::blocks_before(lens, i - 1);
            let l = lens[i - 1];
            assert(b == a + l);
            assert(b * bs == a * bs + l * bs) by (nonlinear_arith)
                requires
                    b == a + l,
            ;
            assert(a * bs >= 0) by (nonlinear_arith)
                requires
                    a >= 0,
            ;
        }
    }
    let a = mkfs::blocks_before(lens, k - 1);
    let l = lens[k - 1];
    assert(a + l == q);
    assert(q * bs == a * bs + l * bs && a * bs >= 0) by (nonlinear_arith)
        requires
            q == a + l,
            a >= 0,
            bs > 0,
    ;
    assert forall|i: int| 0 <= i < gs.len() implies (#[trigger] gs[i]).length * bs < 0x10_0000_0000
        + 1024 * bs by {
        let x = lens[i];
        assert(x * bs < max * bs + 1024 * bs) by (nonlinear_arith)
            requires
                x <= max + 1023,
                bs > 0,
        ;
    }
    reveal(mkfs::first_super);
    let free = p.free + mkfs::later_free(lens, bs, k);
    assert(mkfs::blocks_before(lens, 1) == lens[0]) by {
        reveal_with_fuel(mkfs::blocks_before, 2);
    }
    assert(free + 1 <= q);
}

/// A power of two from 2048 to 2 GiB divides 64 GiB.
proof fn lemma_pow2_cuts(bs: u32)
    requires
        superblock::is_pow2(bs as int),
        bs >= 2048,
    ensures
        (0x10_0000_0000int / bs as int) * bs == 0x10_0000_0000,
{
    superblock::lemma_blocksize_bound(bs);
    assert(superblock::is_pow2(0x10_0000_0000)) by {
        reveal_with_fuel(superblock::is_pow2, 38);
    }
    mkfs_laws::lemma_pow2_divides(bs as int, 0x10_0000_0000);
    let q = 0x10_0000_0000int / bs as int;
    assert(q * bs == 0x10_0000_0000) by (nonlinear_arith)
        requires
            0x10_0000_0000int % (bs as int) == 0,
            q == 0x10_0000_0000int / (bs as int),
            bs > 0,
    ;
}

// --- the superblock -----------------------------------------------------------

/// Bytes that are set aside for the journal: those asked for, else a sixteenth
/// of the volume, but 4 MiB at least and 128 MiB at most.
pub open spec fn journal_asked(o: MkfsOpts, n: int) -> int {
    let part = (n - n % o.blocksize as int) / 16;
    if let Some(j) = o.journal {
        j as int
    } else if part < 0x40_0000 {
        0x40_0000
    } else if part > 0x800_0000 {
        0x800_0000
    } else {
        part
    }
}

/// The superblock of a volume that was made has the sizes and the identity that
/// were asked for, no feature flags, and counts from the start. The journal has
/// the fewest blocks that hold what is set aside for it, and is empty. One block
/// is in use, that of the first inodes.
pub proof fn law_made_superblock_is_as_asked(
    d: Dev,
    o: MkfsOpts,
    uuid: [u8; 16],
    now: Ts,
    sb: Superblock,
    m: Groups,
)
    requires
        made_as(d, o, uuid, now, sb, m),
    ensures
        ({
            let n = mkfs::formatted(d, o, uuid, now).0.bytes.len() as int;
            let j = journal_asked(o, n);
            &&& sb.blocksize == o.blocksize
            &&& sb.inodesize == o.inodesize
            &&& sb.uuid == uuid
            &&& sb.compat == 0
            &&& sb.ro_compat == 0
            &&& sb.incompat == 0
            &&& sb.gen == 1
            &&& sb.full_blocks == 1
            &&& sb.journal_seq == 1
            &&& sb.journal_head == 0
            &&& sb.journal_length * o.blocksize >= j
            &&& j > 0 ==> (sb.journal_length - 1) * o.blocksize < j
            &&& j == 0 ==> sb.journal_length == 0
        }),
{
    lemma_made(d, o, uuid, now);
    let d1 = mkfs::sized(d, o);
    let n = d1.bytes.len() as int;
    let j = journal_asked(o, n);
    let lens = mkfs_laws::lens_of(d1, o);
    let p = mkfs_laws::layout_of(d1, o)->Ok_0;
    reveal(mkfs::first_super);
    assert(mkfs::journal_bytes(n - n % o.blocksize as int, o.journal) == j);
    fmt::lemma_ceil_div(j, o.blocksize as int);
    lemma_plan_journal(lens[0], o.blocksize, j, mkfs::kernel_len(o));
}

/// The journal of a layout has the blocks that were computed.
proof fn lemma_plan_journal(len: u32, bs: u32, journal: int, kernel: int)
    requires
        bs > 0,
        journal >= 0,
        kernel >= 0,
        mkfs::plan_of(len, bs, journal, kernel) is Ok,
    ensures
        mkfs::plan_of(len, bs, journal, kernel)->Ok_0.journal == fmt::ceil_div(
            journal,
            bs as int,
        ),
{
    fmt::lemma_ceil_div(journal, bs as int);
    fmt::lemma_ceil_div(kernel, bs as int);
    fmt::lemma_ceil_div(mkfs::AGMAP_BYTES as int, bs as int);
    let t = header::table_blocks(len, bs);
    assert(t >= 0) by {
        fmt::lemma_ceil_div(len as int, 256);
        fmt::lemma_ceil_div(header::cell_count(len), 4);
        fmt::lemma_ceil_div(
            header::state_bytes(header::cell_count(len)) + 6 * header::cell_count(len),
            bs as int,
        );
    }
}

/// The fixed parts of a volume that was made lie in its first group, one behind
/// the other and none over another: the superblock, the two copies of the map
/// of 64 KiB each, the journal, the kernel where there is one, the first inodes,
/// and the backup of the superblock in the last block.
#[verifier::rlimit(60)]
#[verifier::spinoff_prover]
pub proof fn law_made_parts_lie_apart(
    d: Dev,
    o: MkfsOpts,
    uuid: [u8; 16],
    now: Ts,
    sb: Superblock,
    m: Groups,
)
    requires
        made_as(d, o, uuid, now, sb, m),
    ensures
        ({
            let bs = o.blocksize;
            let slots = o.blocksize / o.inodesize as u32;
            &&& sb.agmap_length == 0x1_0000
            &&& sb.agmap_offset % bs as u64 == 0
            &&& 2 * bs <= sb.agmap_offset
            &&& sb.agmap_offset + 2 * sb.agmap_length <= sb.journal_start * bs
            &&& sb.kernel_offset > 0 ==> {
                &&& sb.kernel_offset % bs as u64 == 0
                &&& (sb.journal_start + sb.journal_length) * bs <= sb.kernel_offset
                &&& sb.kernel_offset <= sb.kernel_end <= sb.root_ino / slots as u64 * bs
            }
            &&& (sb.journal_start + sb.journal_length) * bs <= sb.root_ino / slots as u64 * bs
            &&& sb.root_ino % slots as u64 == 0
            &&& sb.root_ino / slots as u64 + 1 < m.entries[0].length
        }),
{
    lemma_made(d, o, uuid, now);
    let bs = o.blocksize;
    let d1 = mkfs::sized(d, o);
    let lens = mkfs_laws::lens_of(d1, o);
    let p = mkfs_laws::layout_of(d1, o)->Ok_0;
    let slots = bs / o.inodesize as u32;
    mkfs_laws::lemma_byte_places(d1, o, p, lens);
    reveal(mkfs::first_super);
    fmt::law_address_halves(0, p.journal_at, 0);
    assert(sb.journal_start == p.journal_at) by {
        lemma_low_address(p.journal_at);
    }
    let base = p.inodes() * slots;
    assert(0 <= base <= u32::MAX) by (nonlinear_arith)
        requires
            base == p.inodes() * slots,
            0 <= p.inodes() <= 0xfff_ffff,
            0 <= slots <= 16,
    ;
    assert(sb.root_ino == base) by {
        lemma_low_address(base as u32);
    }
    assert(base / slots as int == p.inodes() && base % slots as int == 0) by {
        vstd::arithmetic::div_mod::lemma_fundamental_div_mod_converse(
            base,
            slots as int,
            p.inodes() as int,
            0,
        );
    }
    assert((p.journal_at + p.journal) * bs == p.journal_at * bs + p.journal * bs)
        by (nonlinear_arith);
    let mo = p.map_at * bs;
    assert(mo % bs as int == 0) by {
        vstd::arithmetic::div_mod::lemma_mod_multiples_basic(p.map_at as int, bs as int);
    }
    let ko = p.kernel_at * bs;
    assert(ko % bs as int == 0) by {
        vstd::arithmetic::div_mod::lemma_mod_multiples_basic(p.kernel_at as int, bs as int);
    }
    assert(m.entries[0].length == p.length);
}

/// An address in group 0 is the block's number.
proof fn lemma_low_address(local: u32)
    ensures
        fmt::addr_of(0, local) == local,
{
}

/// What is reported of a volume that was made is what it is.
pub proof fn law_made_summary_is_true(
    d: Dev,
    o: MkfsOpts,
    uuid: [u8; 16],
    now: Ts,
    sb: Superblock,
    m: Groups,
    r: MkfsSummary,
)
    requires
        made_as(d, o, uuid, now, sb, m),
        mkfs::formatted(d, o, uuid, now).1 == Ok::<MkfsSummary, FsError>(r),
    ensures
        ({
            let n = mkfs::formatted(d, o, uuid, now).0.bytes.len();
            &&& r.size == r.blocks * o.blocksize
            &&& r.size <= n < r.size + o.blocksize
            &&& r.ags == m.entries.len()
            &&& r.journal_blocks == sb.journal_length
            &&& r.root_ino == sb.root_ino
            &&& r.free_blocks == sb.free_blocks
            &&& r.kernel_offset == sb.kernel_offset
        }),
{
    lemma_made(d, o, uuid, now);
    law_made_groups_fill_the_device(d, o, uuid, now, sb, m);
    let bs = o.blocksize as int;
    let n = mkfs::sized(d, o).bytes.len() as int;
    let size = n - n % bs;
    let q = n / bs;
    assert(size == q * bs && n < q * bs + bs && q * bs <= n) by (nonlinear_arith)
        requires
            size == n - n % bs,
            q == n / bs,
            bs > 0,
    ;
    assert(size / bs == q) by {
        vstd::arithmetic::div_mod::lemma_div_by_multiple(q, bs);
    }
    reveal(mkfs::first_super);
}

// --- the first inodes ---------------------------------------------------------

/// The root directory of a volume that was made: readable by all, linked twice,
/// owned by nobody in particular, and of the time of making. It is empty, or
/// lists the kernel alone.
pub proof fn law_made_root_is_a_directory(
    d: Dev,
    o: MkfsOpts,
    uuid: [u8; 16],
    now: Ts,
    sb: Superblock,
    m: Groups,
)
    requires
        made_as(d, o, uuid, now, sb, m),
    ensures
        ({
            let v = Vol {
                bytes: mkfs::formatted(d, o, uuid, now).0.bytes,
                groups: m.entries,
                bs: sb.blocksize,
            };
            &&& fs::inode_of(v, sb.inodesize, sb.root_ino) matches Ok(root)
            &&& root.mode == 0x41ed
            &&& root.nlink == 2
            &&& root.uid == 0
            &&& root.gid == 0
            &&& root.flags == 0
            &&& root.size == 0
            &&& root.nblocks == 0
            &&& root.xattr == 0
            &&& root.atime == now
            &&& root.mtime == now
            &&& root.ctime == now
            &&& root.btime == now
            &&& dir::listed(v, Map::empty(), true, mapping::mp_of(root)) matches Ok(es)
            &&& o.kernel is None ==> es.len() == 0
            &&& o.kernel is Some ==> {
                &&& es.len() == 1
                &&& es[0].ino == sb.root_ino + 1
                &&& es[0].ftype == fmt::DT_FILE
                &&& es[0].name == "kernel.bin"@
            }
        }),
{
    lemma_made(d, o, uuid, now);
    let d1 = mkfs::sized(d, o);
    mkfs_laws::law_made_root_reads_back(d1, o, uuid, now);
    reveal(mkfs::first_super);
    if o.kernel is Some {
        mkfs_laws::lemma_kernel_inode(d1, o, uuid, now);
        mkfs_clean::lemma_kernel_entry(sb.root_ino);
    }
    assert(0o040755 == 0x41ed);
}

/// A kernel that was given is stored in one piece, as the bytes from
/// `kernel_offset` to `kernel_end`, and as a file behind the root directory: read
/// only, of the kernel's length, whose one extent is where these bytes lie.
#[verifier::rlimit(60)]
#[verifier::spinoff_prover]
pub proof fn law_made_kernel_is_the_one_given(
    d: Dev,
    o: MkfsOpts,
    uuid: [u8; 16],
    now: Ts,
    sb: Superblock,
    m: Groups,
)
    requires
        made_as(d, o, uuid, now, sb, m),
    ensures
        ({
            let bytes = mkfs::formatted(d, o, uuid, now).0.bytes;
            let v = Vol { bytes, groups: m.entries, bs: sb.blocksize };
            match o.kernel {
                None => sb.kernel_offset == 0 && sb.kernel_end == 0,
                Some(k) => {
                    &&& k@.len() == 0 ==> sb.kernel_offset == 0 && sb.kernel_end == 0
                    &&& k@.len() > 0 ==> {
                        &&& sb.kernel_offset > 0
                        &&& sb.kernel_end - sb.kernel_offset == k@.len()
                        &&& sb.kernel_end <= bytes.len()
                        &&& bytes.subrange(sb.kernel_offset as int, sb.kernel_end as int) == k@
                    }
                    &&& fs::inode_of(v, sb.inodesize, (sb.root_ino + 1) as u64) matches Ok(i)
                    &&& i.mode == 0x81a4
                    &&& i.nlink == 1
                    &&& i.uid == 0
                    &&& i.gid == 0
                    &&& i.flags == fmt::INODE_FLAG_IMMUTABLE
                    &&& i.size == k@.len()
                    &&& i.nblocks * sb.blocksize >= k@.len()
                    &&& (i.nblocks - 1) * sb.blocksize < k@.len()
                    &&& i.xattr == 0
                    &&& i.atime == now
                    &&& i.mtime == now
                    &&& i.ctime == now
                    &&& i.btime == now
                    &&& i.format == fmt::FMT_EXTENT
                    &&& k@.len() > 0 ==> inode::extents_of(i.payload@) == seq![
                        Extent {
                            file_block: 0,
                            blk: (sb.kernel_offset / sb.blocksize as u64) as u64,
                            blocks: i.nblocks as u32,
                        },
                    ]
                },
            }
        }),
{
    lemma_made(d, o, uuid, now);
    let d1 = mkfs::sized(d, o);
    let bs = o.blocksize;
    let lens = mkfs_laws::lens_of(d1, o);
    let p = mkfs_laws::layout_of(d1, o)->Ok_0;
    reveal(mkfs::first_super);
    fmt::lemma_ceil_div(mkfs::kernel_len(o), bs as int);
    mkfs_laws::lemma_byte_places(d1, o, p, lens);
    if let Some(k) = o.kernel {
        mkfs_laws::lemma_kernel_inode(d1, o, uuid, now);
        assert(0o100644 == 0x81a4);
        let n = k@.len() as int;
        if n > 0 {
            mkfs_laws::law_kernel_lies_in_one_piece(d1, o, uuid, now);
            assert(p.kernel > 0) by (nonlinear_arith)
                requires
                    p.kernel * bs >= n,
                    n > 0,
                    bs > 0,
            ;
            lemma_low_address(p.kernel_at);
            let ko = p.kernel_at * bs;
            assert(ko / bs as int == p.kernel_at) by {
                vstd::arithmetic::div_mod::lemma_div_by_multiple(p.kernel_at as int, bs as int);
            }
            let e = Extent { file_block: 0, blk: p.kernel_at as u64, blocks: p.kernel };
            lemma_one_extent(e);
        } else {
            assert((0 - 1) * bs < 0) by (nonlinear_arith)
                requires
                    bs > 0,
            ;
        }
    }
}

/// A mapping with one extent reads back.
proof fn lemma_one_extent(e: Extent)
    requires
        e.blocks > 0,
    ensures
        inode::extents_of(mkfs::payload(inode::extents_image(seq![e]))@) == seq![e],
{
    inode::law_extents_round_trip(seq![e]);
    mkfs::lemma_payload(inode::extents_image(seq![e]));
}

// --- what is refused ----------------------------------------------------------

/// Options that cannot be met are refused before anything is written.
pub proof fn law_bad_options_are_refused(d: Dev, o: MkfsOpts, uuid: [u8; 16], now: Ts)
    ensures
        ({
            let r = mkfs::formatted(d, o, uuid, now);
            let blocks_ok = superblock::is_pow2(o.blocksize as int) && o.blocksize >= 2048;
            let inodes_ok = superblock::is_pow2(o.inodesize as int) && 256 <= o.inodesize
                <= o.blocksize;
            &&& !blocks_ok ==> r == (d, Err::<MkfsSummary, FsError>(FsError::MkfsBlocksize))
            &&& blocks_ok && !inodes_ok ==> r == (
                d,
                Err::<MkfsSummary, FsError>(FsError::MkfsInodesize),
            )
            &&& blocks_ok && inodes_ok && o.blocksize >= 17 * o.inodesize ==> r == (
                d,
                Err::<MkfsSummary, FsError>(FsError::MkfsSlots),
            )
            &&& blocks_ok && inodes_ok && o.blocksize < 17 * o.inodesize && o.size is None
                && d.bytes.len() - d.bytes.len() % (o.blocksize as nat) < 0x80_0000 ==> r == (
                d,
                Err::<MkfsSummary, FsError>(
                    FsError::DeviceTooSmall(
                        (d.bytes.len() - d.bytes.len() % o.blocksize as nat) as u64,
                    ),
                ),
            )
        }),
{
    let bs = o.blocksize as int;
    let isz = o.inodesize as int;
    if isz > 0 {
        let q = bs / isz;
        assert(q > 16 <==> bs >= 17 * isz) by (nonlinear_arith)
            requires
                q == bs / isz,
                isz > 0,
                bs >= 0,
        ;
    }
}

// --- when a volume can be made ------------------------------------------------

/// Writes that lie on a device that can be written succeed.
proof fn lemma_fit(d: Dev, items: Seq<(Result<u64, FsError>, Seq<u8>)>)
    requires
        d.writable,
        forall|i: int|
            0 <= i < items.len() ==> ((#[trigger] items[i]).0 matches Ok(q) && q + items[i].1.len()
                <= d.bytes.len()),
    ensures
        device::dev_writes(d, items).1 is Ok,
    decreases items.len(),
{
    if items.len() > 0 {
        assert(items[0].0 matches Ok(q) && q + items[0].1.len() <= d.bytes.len());
        let (d1, r) = device::dev_write(d, items[0].0->Ok_0, items[0].1);
        let rest = items.skip(1);
        assert forall|i: int| 0 <= i < rest.len() implies ((#[trigger] rest[i]).0 matches Ok(q) && q
            + rest[i].1.len() <= d1.bytes.len()) by {
            assert(rest[i] == items[i + 1]);
        }
        lemma_fit(d1, rest);
    }
}

/// What is written to the first group lies on the device.
#[verifier::rlimit(60)]
#[verifier::spinoff_prover]
proof fn lemma_first_fits(d: Dev, o: MkfsOpts, p: Plan, lens: Seq<u32>, now: Ts, i: int)
    requires
        mkfs_laws::planned(d, o, p, lens),
        0 <= i < mkfs::first_writes(p, o.blocksize, o.inodesize, mkfs::kernel_of(o), now).len(),
    ensures
        ({
            let w = mkfs::first_writes(p, o.blocksize, o.inodesize, mkfs::kernel_of(o), now)[i];
            w.0 matches Ok(q) && q + w.1.len() <= d.bytes.len()
        }),
{
    let bs = o.blocksize;
    let isz = o.inodesize;
    let a = mkfs::first_writes(p, bs, isz, mkfs::kernel_of(o), now);
    mkfs_laws::lemma_byte_places(d, o, p, lens);
    crate::new_tables::lemma_first_table(p, bs);
    crate::new_tables::lemma_arena_block(p, bs);
    header::law_header_round_trip(mkfs::first_header(p), Seq::empty());
    let hb = fs::header_block(mkfs::first_header(p), bs);
    let root_i = mkfs::root_inode(now, mkfs::first_ino(p, bs, isz), mkfs::kernel_of(o) is Some);
    let root = inode::inode_bytes(root_i);
    inode::law_inode_round_trip(root_i, Seq::empty());
    assert(hb.len() == bs);
    assert(2 * bs + p.table * bs <= p.map_at * bs && 0 <= p.table * bs) by (nonlinear_arith)
        requires
            p.map_at == 2 + p.table,
            p.table >= 0,
            bs > 0,
    ;
    assert(p.next * bs >= 0) by (nonlinear_arith)
        requires
            p.next >= 0,
            bs > 0,
    ;
    assert(a[0] == mkfs::at(p.arena() * bs, mkfs::arena_block(p, bs)));
    assert(a[1] == mkfs::at(0, fmt::zeros((p.next * bs) as nat)));
    assert(a[2] == mkfs::at(bs as int, hb));
    assert(a[3] == mkfs::at(2 * bs, mkfs::first_table(p, bs)));
    assert(a[4] == mkfs::at(p.inodes() * bs, fmt::zeros(bs as nat)));
    if let Some(ker) = mkfs::kernel_of(o) {
        let ki = mkfs::kernel_inode(now, p, ker.len() as u64);
        inode::law_inode_round_trip(ki, Seq::empty());
        let padded = ker + fmt::zeros((p.kernel * bs - ker.len()) as nat);
        assert(a.len() == 8);
        assert(a[5] == mkfs::at(p.kernel_at * bs, padded));
        assert(a[6] == mkfs::at(p.inodes() * bs + isz, inode::inode_bytes(ki)));
        assert(a[7] == mkfs::at(p.inodes() * bs, root));
        assert(i == 0 || i == 1 || i == 2 || i == 3 || i == 4 || i == 5 || i == 6 || i == 7);
    } else {
        assert(a.len() == 6);
        assert(a[5] == mkfs::at(p.inodes() * bs, root));
        assert(i == 0 || i == 1 || i == 2 || i == 3 || i == 4 || i == 5);
    }
}

/// The map of a volume that was made takes 24 bytes, and 24 for each group.
proof fn lemma_map_size(gs: Seq<Group>)
    requires
        forall|i: int| 0 <= i < gs.len() ==> (#[trigger] gs[i]).segs.len() == 1,
    ensures
        crate::agmap::groups_size(gs) == 24 + 24 * gs.len(),
    decreases gs.len(),
{
    if gs.len() > 0 {
        let t = gs.drop_last();
        assert forall|i: int| 0 <= i < t.len() implies (#[trigger] t[i]).segs.len() == 1 by {
            assert(t[i] == gs[i]);
        }
        lemma_map_size(t);
        assert(gs[gs.len() - 1].segs.len() == 1);
    }
}

/// Making a volume that is laid out succeeds where its map has room for all
/// groups.
#[verifier::rlimit(60)]
#[verifier::spinoff_prover]
proof fn lemma_filled_ok(d: Dev, o: MkfsOpts, p: Plan, lens: Seq<u32>, uuid: [u8; 16], now: Ts)
    requires
        d.writable,
        mkfs_laws::planned(d, o, p, lens),
        24 + 24 * lens.len() <= 0x1_0000,
    ensures
        mkfs::filled(d, o, p, lens, uuid, now).1 is Ok,
{
    reveal(mkfs::filled);
    let bs = o.blocksize;
    let k = lens.len() as int;
    let first = mkfs::first_writes(p, bs, o.inodesize, mkfs::kernel_of(o), now);
    let later = mkfs::later_writes(lens, bs, k);
    let a = first + later;
    mkfs_laws::lemma_later_lengths(d, o, p);
    mkfs_laws::lemma_later_len(lens, bs, k);
    assert forall|i: int| 0 <= i < a.len() implies ((#[trigger] a[i]).0 matches Ok(q) && q
        + a[i].1.len() <= d.bytes.len()) by {
        if i < first.len() {
            lemma_first_fits(d, o, p, lens, now, i);
            assert(a[i] == first[i]);
        } else {
            let r = i - first.len();
            let g = r / 3 + 1;
            let j = r % 3;
            assert(1 <= g < k && 0 <= j < 3 && 3 * (g - 1) + j == r);
            mkfs_laws::lemma_later_item(lens, bs, k, g, j);
            assert(lens[g] > 1);
            mkfs_laws::lemma_group_inside(d, o, p, lens, g, j);
            lemma_group_end(d, o, p, lens, g);
            assert(a[i] == later[r]);
        }
    }
    lemma_fit(d, a);
    let d1 = device::dev_writes(d, a).0;
    crate::journal_laws::lemma_writes_len(d, a);
    let m = mkfs::first_map(lens, bs);
    lemma_map_size(m.entries);
    let sb = mkfs::first_super(o, p, lens, mkfs::kernel_len(o), uuid);
    let c = mkfs::last_writes(p, sb, m);
    mkfs_laws::lemma_byte_places(d, o, p, lens);
    assert forall|i: int| 0 <= i < c.len() implies ((#[trigger] c[i]).0 matches Ok(q) && q
        + c[i].1.len() <= d1.bytes.len()) by {
        mkfs_laws::lemma_last_inside(d, o, p, lens, uuid, i);
    }
    lemma_fit(d1, c);
}

/// A group ends on the device.
proof fn lemma_group_end(d: Dev, o: MkfsOpts, p: Plan, lens: Seq<u32>, i: int)
    requires
        mkfs_laws::planned(d, o, p, lens),
        0 <= i < lens.len(),
    ensures
        mkfs::blocks_before(lens, i + 1) * o.blocksize <= d.bytes.len(),
{
    let b = mkfs::blocks_before(lens, i + 1);
    let total = mkfs::blocks_before(lens, lens.len() as int);
    mkfs::lemma_before_monotonic(lens, i + 1, lens.len() as int);
    assert(b * o.blocksize <= total * o.blocksize) by (nonlinear_arith)
        requires
            b <= total,
            o.blocksize > 0,
    ;
}

/// The length of the first group: all blocks of the device, or 64 GiB of them
/// where the rest makes a group of its own.
pub open spec fn first_length(n: int, bs: int) -> int {
    if n / bs < 0x10_0000_0000int / bs + 1024 {
        n / bs
    } else {
        0x10_0000_0000int / bs
    }
}

/// A volume is made wherever the options can be met: on a device that can be
/// written, of 8 MiB or more, with no more groups than the map has room for, and
/// a first group that holds its fixed parts and three cells more.
#[verifier::rlimit(60)]
#[verifier::spinoff_prover]
pub proof fn law_making_succeeds(d: Dev, o: MkfsOpts, uuid: [u8; 16], now: Ts, n: int)
    requires
        d.writable,
        d.bytes.len() <= u64::MAX,
        o.kernel matches Some(k) ==> k@.len() <= u64::MAX,
        superblock::is_pow2(o.blocksize as int),
        superblock::is_pow2(o.inodesize as int),
        o.blocksize >= 2048,
        256 <= o.inodesize <= o.blocksize,
        o.blocksize <= 16 * o.inodesize,
        o.size matches Some(s) ==> n <= s < n + o.blocksize && n % (o.blocksize as int) == 0,
        o.size is None ==> n == d.bytes.len(),
        n - n % (o.blocksize as int) >= 0x80_0000,
        (n / 0x10_0000_0000 + 2) * 24 <= 0x1_0000,
        ({
            let bs = o.blocksize as int;
            let len = first_length(n, bs);
            2 + header::table_blocks(len as u32, o.blocksize) + 2 * fmt::ceil_div(0x1_0000, bs)
                + fmt::ceil_div(journal_asked(o, n), bs) + fmt::ceil_div(
                mkfs::kernel_len(o),
                bs,
            ) + 768 < len
        }),
    ensures
        mkfs::formatted(d, o, uuid, now).1 is Ok,
{
    let bs = o.blocksize as int;
    let isz = o.inodesize as int;
    let slots = bs / isz;
    assert(slots <= 16) by (nonlinear_arith)
        requires
            slots == bs / isz,
            bs <= 16 * isz,
            isz > 0,
    ;
    let d1 = mkfs::sized(d, o);
    if let Some(s) = o.size {
        let q = n / bs;
        assert(n == q * bs) by (nonlinear_arith)
            requires
                n % bs == 0,
                q == n / bs,
                bs > 0,
        ;
        vstd::arithmetic::div_mod::lemma_fundamental_div_mod_converse(s as int, bs, q, s - n);
        assert(s - s as int % bs == n);
    }
    assert(d1.bytes.len() == n);
    assert(d1.writable);
    let size = n - n % bs;
    let q = n / bs;
    assert(size == q * bs && q * bs <= n < q * bs + bs) by (nonlinear_arith)
        requires
            size == n - n % bs,
            q == n / bs,
            bs > 0,
    ;
    assert(size / bs == q) by {
        vstd::arithmetic::div_mod::lemma_div_by_multiple(q, bs);
    }
    assert(q > 0) by (nonlinear_arith)
        requires
            q * bs >= 0x80_0000,
            bs > 0,
    ;
    let max = 0x10_0000_0000int / bs;
    mkfs::lemma_max_blocks(o.blocksize);
    mkfs::law_groups_cover_the_device(q, max);
    let lens = mkfs_laws::lens_of(d1, o);
    assert(lens[0] == first_length(n, bs)) by {
        reveal_with_fuel(mkfs::group_lengths, 2);
    }
    assert(mkfs::journal_bytes(size, o.journal) == journal_asked(o, n));
    assert(mkfs_laws::layout_of(d1, o) is Ok);
    mkfs_laws::lemma_plan_holds(d1, o);
    let p = mkfs_laws::layout_of(d1, o)->Ok_0;
    let k = lens.len() as int;
    lemma_group_count(lens, max, k - 1);
    let b = mkfs::blocks_before(lens, k - 1);
    assert(b <= q) by {
        mkfs::lemma_before_monotonic(lens, k - 1, k);
    }
    lemma_pow2_cuts(o.blocksize);
    let whole = k - 1;
    assert(whole * 0x10_0000_0000 <= n) by (nonlinear_arith)
        requires
            whole * max <= q,
            max * bs == 0x10_0000_0000,
            q * bs <= n,
            bs > 0,
    ;
    assert(whole <= n / 0x10_0000_0000);
    lemma_filled_ok(d1, o, p, lens, uuid, now);
    assert(mkfs::made(d1, o, uuid, now).1 is Ok);
}

/// So many groups of `max` blocks take so many times `max` blocks.
proof fn lemma_group_count(lens: Seq<u32>, max: int, n: int)
    requires
        0 <= n <= lens.len(),
        forall|i: int| 0 <= i < n ==> #[trigger] lens[i] == max,
    ensures
        mkfs::blocks_before(lens, n) == n * max,
    decreases n,
{
    if n > 0 {
        lemma_group_count(lens, max, n - 1);
        assert(lens[n - 1] == max);
        assert((n - 1) * max + max == n * max) by (nonlinear_arith);
    } else {
        assert(0 * max == 0) by (nonlinear_arith);
    }
}

} // verus!
