//! In which order writes reach the medium: what stands before a barrier in the
//! device's log is there before anything behind it is.

use vstd::prelude::*;

use crate::agmap;
use crate::agmap::{Group, Groups};
use crate::device;
use crate::device::{Dev, Io};
use crate::error::FsError;
use crate::fs;
use crate::import;
use crate::inode::Ts;
use crate::journal;
use crate::mkfs;
use crate::mkfs::MkfsOpts;
use crate::resize;
use crate::resize::Img;
use crate::superblock;
use crate::superblock::Superblock;
use crate::txn;
use crate::vol;

verus! {

/// The writes that were asked for, as the log shows them.
pub open spec fn written(items: Seq<(Result<u64, FsError>, Seq<u8>)>) -> Seq<Io> {
    Seq::new(
        items.len(),
        |i: int| Io::Write { offset: items[i].0->Ok_0, data: items[i].1 },
    )
}

/// Writes that succeed stand in the log, in order and nothing else.
pub proof fn law_writes_are_logged(d: Dev, items: Seq<(Result<u64, FsError>, Seq<u8>)>)
    requires
        device::dev_writes(d, items).1 is Ok,
    ensures
        device::dev_writes(d, items).0.log == d.log + written(items),
    decreases items.len(),
{
    if items.len() > 0 {
        let (d1, r) = device::dev_write(d, items[0].0->Ok_0, items[0].1);
        law_writes_are_logged(d1, items.skip(1));
        let got = d1.log + written(items.skip(1));
        let want = d.log + written(items);
        assert forall|j: int| 0 <= j < got.len() implies #[trigger] got[j] == want[j] by {
            let i = j - d.log.len();
            if i > 0 {
                assert(items.skip(1)[i - 1] == items[i]);
            }
        }
        assert(got =~= want);
    } else {
        assert(d.log + written(items) =~= d.log);
    }
}

// --- commit -------------------------------------------------------------------

/// A commit writes the whole transaction to the journal, waits, writes each block
/// to its place, waits, and only then moves the journal's head in the superblock.
#[verifier::rlimit(40)]
#[verifier::spinoff_prover]
pub proof fn law_commit_orders_its_writes(
    d: Dev,
    sb: Superblock,
    gs: Seq<Group>,
    t: Map<u64, Seq<u8>>,
)
    requires
        journal::committed(d, sb, gs, t).2 is Ok,
        t.dom() != Set::<u64>::empty(),
    ensures
        ({
            let log = journal::committed(d, sb, gs, t).0.log;
            let k = d.log.len() as int;
            let n = txn::order(t).len() as int;
            &&& log.len() > k + 2 * n + 4
            &&& log.take(k) == d.log
            &&& forall|i: int| k <= i < k + n + 2 ==> #[trigger] log[i] is Write
            &&& log[k + n + 2] is Sync
            &&& forall|i: int|
                0 <= i < n ==> log[k + n + 3 + i] == (Io::Write {
                    offset: vol::place(gs, sb.blocksize, #[trigger] txn::order(t)[i])->Ok_0,
                    data: t[txn::order(t)[i]],
                })
            &&& log[k + 2 * n + 3] is Sync
            &&& log[k + 2 * n + 4] matches Io::Write { offset, data: _ } && offset == 0
        }),
{
    let ts = txn::order(t);
    let n = ts.len() as int;
    let m = t.dom().len() as int;
    let head = journal::commit_head(sb, m);
    let a = journal::log_writes(gs, sb, head, t);
    let (d1, r1) = device::dev_writes(d, a);
    let s1 = device::dev_sync(d1);
    let b = journal::in_place(gs, sb.blocksize, ts, journal::contents(t));
    let (d2, r2) = device::dev_writes(s1, b);
    let s2 = device::dev_sync(d2);
    law_writes_are_logged(d, a);
    law_writes_are_logged(s1, b);
    assert(a.len() == n + 2);
    assert(b.len() == n);
    let sb1 = Superblock {
        journal_head: journal::head_after(sb, head, m) as u64,
        journal_seq: (sb.journal_seq + 1) as u64,
        ..sb
    };
    let sb2 = Superblock { gen: (sb1.gen + 1) as u64, ..sb1 };
    let c = fs::sb_writes(sb2, gs);
    law_writes_are_logged(s2, c);
    let log = journal::committed(d, sb, gs, t).0.log;
    assert(log == s2.log + written(c));
    assert(log.take(d.log.len() as int) =~= d.log);
    assert forall|i: int| 0 <= i < n implies log[d.log.len() + n + 3 + i] == (Io::Write {
        offset: vol::place(gs, sb.blocksize, #[trigger] ts[i])->Ok_0,
        data: t[ts[i]],
    }) by {
        assert(written(b)[i] == (Io::Write { offset: b[i].0->Ok_0, data: b[i].1 }));
    }
    assert(c[0].0 == Ok::<u64, FsError>(0));
    assert(written(c)[0] == (Io::Write { offset: 0, data: c[0].1 }));
}

/// A commit counts the journal on: the next transaction has the next number, and
/// goes behind this one, or to the start where this one ends the journal. This one
/// stands at the head, or at the start where it would not fit behind the head.
/// Nothing else of the superblock changes but its generation.
pub proof fn law_commit_moves_the_head(
    d: Dev,
    sb: Superblock,
    gs: Seq<Group>,
    t: Map<u64, Seq<u8>>,
)
    requires
        journal::committed(d, sb, gs, t).2 is Ok,
        t.dom() != Set::<u64>::empty(),
    ensures
        ({
            let n = t.dom().len() as int;
            let sb1 = journal::committed(d, sb, gs, t).1;
            let at = if sb.journal_head + n + 2 <= sb.journal_length {
                sb.journal_head as int
            } else {
                0
            };
            let end = at + n + 2;
            &&& sb1.journal_seq == sb.journal_seq + 1
            &&& end <= sb.journal_length
            &&& sb1.journal_head == if end < sb.journal_length {
                end
            } else {
                0
            }
            &&& sb1 == (Superblock {
                gen: sb1.gen,
                journal_seq: sb1.journal_seq,
                journal_head: sb1.journal_head,
                ..sb
            })
            &&& sb1.gen == sb.gen + 1
        }),
{
}

/// A transaction is refused for its size only: where a descriptor block has no
/// room for its addresses, 8 bytes each behind 24, or the journal none for its
/// blocks and two more. One without blocks is done at once.
pub proof fn law_commit_refuses_by_size(
    d: Dev,
    sb: Superblock,
    gs: Seq<Group>,
    t: Map<u64, Seq<u8>>,
)
    requires
        sb.blocksize >= 512,
        t.dom().finite(),
    ensures
        ({
            let n = t.dom().len() as int;
            let r = journal::committed(d, sb, gs, t);
            &&& n == 0 ==> r == (d, sb, Ok::<(), FsError>(()))
            &&& n > 0 && 24 + 8 * n > sb.blocksize ==> r == (
                d,
                sb,
                Err::<(), FsError>(FsError::TxnTooLarge(n as u64)),
            )
            &&& n > 0 && 24 + 8 * n <= sb.blocksize && n + 2 > sb.journal_length ==> r == (
                d,
                sb,
                Err::<(), FsError>(FsError::TxnOverJournal),
            )
        }),
{
    let n = t.dom().len() as int;
    if n == 0 {
        t.dom().lemma_len0_is_empty();
        assert(t.dom() == Set::<u64>::empty());
    } else if t.dom() == Set::<u64>::empty() {
        assert(t.dom().len() == 0);
    }
}

/// Replay that applied anything waits before it moves the journal's head in the
/// superblock.
pub proof fn law_replay_waits_for_its_writes(d: Dev, sb: Superblock, gs: Seq<Group>)
    requires
        journal::replay_all(d, sb, gs).2 matches Ok(n) && n > 0,
    ensures
        ({
            let log = journal::replay_all(d, sb, gs).0.log;
            exists|k: int|
                0 <= k < log.len() - 1 && #[trigger] log[k] is Sync && (log[k
                    + 1] matches Io::Write { offset, data: _ } && offset == 0)
        }),
{
    let (d1, r) = journal::replayed(d, gs, sb, sb.journal_head as int, sb.journal_seq, 0);
    let (head, seq, n) = r->Ok_0;
    let sb1 = Superblock { journal_head: head as u64, journal_seq: seq, ..sb };
    let s1 = device::dev_sync(d1);
    let sb2 = Superblock { gen: (sb1.gen + 1) as u64, ..sb1 };
    let c = fs::sb_writes(sb2, gs);
    law_writes_are_logged(s1, c);
    let log = journal::replay_all(d, sb, gs).0.log;
    assert(log == s1.log + written(c));
    let k = d1.log.len() as int;
    assert(c[0].0 == Ok::<u64, FsError>(0));
    assert(written(c)[0] == (Io::Write { offset: 0, data: c[0].1 }));
    assert(log[k] is Sync);
    assert(log[k + 1] == written(c)[0]);
}

// --- the map ------------------------------------------------------------------

/// The copy of the map that is written next, and where.
pub open spec fn map_part(x: Img) -> Io {
    let m1 = Groups { gen: (x.m.gen + 1) as u64, ..x.m };
    Io::Write {
        offset: (x.sb.agmap_offset + m1.gen as int % 2 * x.sb.agmap_length) as u64,
        data: agmap::map_image(m1, x.sb.agmap_length as int),
    }
}

/// Storing map and superblock: the map, a barrier, the superblock, a barrier.
#[verifier::rlimit(40)]
#[verifier::spinoff_prover]
pub proof fn law_map_is_stored_before_the_superblock(x: Img)
    requires
        resize::map_stored(x).1 is Ok,
    ensures
        ({
            let log = resize::map_stored(x).0.d.log;
            let k = x.d.log.len() as int;
            &&& log.len() >= k + 4
            &&& log.take(k) == x.d.log
            &&& log[k] == map_part(x)
            &&& log[k + 1] is Sync
            &&& log[k + 2] matches Io::Write { offset, data } && offset == 0 && data
                == superblock::sb_bytes(resize::map_stored(x).0.sb)
            &&& log.last() is Sync
        }),
{
    let (d1, m1, r1) = fs::map_write(x.d, x.sb, x.m);
    let l = x.sb.agmap_length as int;
    assert(0 * l == 0 && 1 * l == l) by (nonlinear_arith);
    let sb1 = Superblock { gen: (x.sb.gen + 1) as u64, ..x.sb };
    let c = fs::sb_writes(sb1, m1.entries);
    law_writes_are_logged(d1, c);
    assert(c[0] == (Ok::<u64, FsError>(0), superblock::sb_bytes(sb1)));
    assert(written(c)[0] == (Io::Write { offset: 0, data: c[0].1 }));
    let log = resize::map_stored(x).0.d.log;
    assert(log == (d1.log + written(c)).push(Io::Sync));
    assert(log.take(x.d.log.len() as int) =~= x.d.log);
}

/// The header and the table of a new group are on the medium before the map
/// names the group.
#[verifier::rlimit(40)]
#[verifier::spinoff_prover]
pub proof fn law_new_group_is_there_before_the_map(x: Img, off: u64, bytes: u64)
    requires
        resize::group_added(x, off, bytes).1 is Ok,
    ensures
        ({
            let log = resize::group_added(x, off, bytes).0.d.log;
            let k = x.d.log.len() as int;
            &&& log.len() >= k + 7
            &&& log.take(k) == x.d.log
            &&& log[k] matches Io::Write { offset, data: _ } && offset == off
            &&& log[k + 1] matches Io::Write { offset, data: _ } && offset == off + x.sb.blocksize
            &&& log[k + 2] is Sync
            &&& log[k + 3] is Write
            &&& log[k + 4] is Sync
            &&& log.last() is Sync
        }),
{
    let bs = x.sb.blocksize;
    let len = (bytes as int / bs as int % 0x1_0000_0000) as u32;
    let ag = x.sb.next_ag;
    let free = resize::new_free(len, bs);
    let items = seq![
        (Ok::<u64, FsError>(off), fs::header_block(resize::new_header(ag, len, bs), bs)),
        (
            Ok::<u64, FsError>((off + bs) as u64),
            resize::base_table(len, bs, 1 + crate::header::table_blocks(len, bs)),
        ),
    ];
    let (d1, r1) = device::dev_writes(x.d, items);
    law_writes_are_logged(x.d, items);
    let z = Img {
        d: device::dev_sync(d1),
        sb: Superblock {
            next_ag: (ag + 1) as u32,
            free_blocks: (x.sb.free_blocks + free) as u64,
            rsvd_blocks: (x.sb.rsvd_blocks + (len - free)) as u64,
            ..x.sb
        },
        m: Groups {
            entries: x.m.entries.push(resize::whole_group(crate::fmt::AGF_PRESENT, len, off)),
            ..x.m
        },
    };
    law_map_is_stored_before_the_superblock(z);
    let log = resize::group_added(x, off, bytes).0.d.log;
    let k = x.d.log.len() as int;
    assert(log == resize::map_stored(z).0.d.log);
    let pre = z.d.log;
    assert(pre == (x.d.log + written(items)).push(Io::Sync));
    assert(written(items)[0] == (Io::Write { offset: off, data: items[0].1 }));
    assert(written(items)[1] == (Io::Write { offset: (off + bs) as u64, data: items[1].1 }));
    assert(pre.len() == k + 3);
    assert(log.take(k + 3) == pre);
    assert(log[k] == log.take(k + 3)[k]);
    assert(log[k + 1] == log.take(k + 3)[k + 1]);
    assert(log[k + 2] == log.take(k + 3)[k + 2]);
    assert(log.take(k) =~= pre.take(k));
    assert(pre.take(k) =~= x.d.log);
}

/// The blocks of a group that moves are on the medium at their new place before
/// the map says so.
#[verifier::rlimit(40)]
#[verifier::spinoff_prover]
pub proof fn law_moved_group_is_there_before_the_map(x: Img, ag: u32, dest: u64)
    requires
        resize::relocated(x, ag, dest).1 is Ok,
    ensures
        ({
            let g = x.m.entries[ag as int];
            let log = resize::relocated(x, ag, dest).0.d.log;
            let copied = resize::segs_copied(x.d, g.segs, x.sb.blocksize, dest, 0).0.log;
            let k = copied.len() as int;
            &&& log.len() >= k + 5
            &&& log.take(k) == copied
            &&& log[k] is Sync
            &&& log[k + 1] is Write
            &&& log[k + 2] is Sync
            &&& log.last() is Sync
        }),
{
    let gs = x.m.entries;
    let g = gs[ag as int];
    let (d1, r1) = resize::segs_copied(x.d, g.segs, x.sb.blocksize, dest, 0);
    let z = Img {
        d: device::dev_sync(d1),
        m: Groups {
            entries: gs.update(ag as int, resize::whole_group(g.flags, g.length, dest)),
            ..x.m
        },
        ..x
    };
    law_map_is_stored_before_the_superblock(z);
    let log = resize::relocated(x, ag, dest).0.d.log;
    let k = d1.log.len() as int;
    assert(log.take(k + 1) == z.d.log);
    assert(log[k] == log.take(k + 1)[k]);
    assert(log.take(k) =~= z.d.log.take(k));
    assert(z.d.log.take(k) =~= d1.log);
}

// --- whole operations ---------------------------------------------------------

/// A volume that was made is on the medium when the making returns.
pub proof fn law_made_volume_is_on_the_medium(d: Dev, o: MkfsOpts, uuid: [u8; 16], now: Ts)
    requires
        mkfs::formatted(d, o, uuid, now).1 is Ok,
    ensures
        mkfs::formatted(d, o, uuid, now).0.log.last() is Sync,
{
    reveal(mkfs::filled);
}

/// A file that was imported is on the medium when the import returns.
pub proof fn law_imported_file_is_on_the_medium(
    x: Img,
    name: Seq<char>,
    data: Seq<u8>,
    mode: u16,
    now: Ts,
)
    requires
        import::imported(x, name, data, mode, now).1 is Ok,
    ensures
        import::imported(x, name, data, mode, now).0.d.log.last() is Sync,
{
    crate::import_laws::lemma_imported_shape(x, name, data, mode, now);
}

} // verus!
