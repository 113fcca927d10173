//! What replay and opening promise of a log with any number of transactions: each is
//! applied once, in order, and every block holds what the log holds for it.

use crate::agmap::Group;
use crate::device::Dev;
use crate::error::FsError;
use crate::superblock::Superblock;
use crate::vol::Vol;
use vstd::prelude::*;

use crate::device;
use crate::fs;
use crate::journal;
use crate::journal_laws;
use crate::opening;
use crate::superblock;
use crate::vol;

verus! {

/// Block `blk` of the volume with groups `gs`.
pub open spec fn block(bytes: Seq<u8>, gs: Seq<Group>, bs: u32, blk: u64) -> Result<
    Seq<u8>,
    FsError,
> {
    vol::rd0(Vol { bytes, groups: gs, bs }, blk)
}

/// A transaction names each of its blocks once, and none of them lies in the journal
/// or under a copy of the superblock.
pub open spec fn proper(gs: Seq<Group>, sb: Superblock, ts: Seq<u64>) -> bool {
    &&& forall|i: int, j: int| 0 <= i < j < ts.len() ==> ts[i] != ts[j]
    &&& forall|i: int|
        0 <= i < ts.len() ==> !(sb.journal_start <= #[trigger] ts[i] < sb.journal_start
            + sb.journal_length)
    &&& forall|i: int|
        0 <= i < ts.len() ==> journal_laws::block_off_superblock(
            gs,
            sb.blocksize,
            #[trigger] ts[i],
        )
}

/// Every transaction that stands in the log from `head` and `seq` on is a proper one.
pub open spec fn orderly(bytes: Seq<u8>, gs: Seq<Group>, sb: Superblock, head: int, seq: u64) -> bool
    decreases u64::MAX - seq,
{
    match journal::next_txn(bytes, gs, sb, head, seq) {
        Ok(Some((pos, (ts, blocks)))) => proper(gs, sb, ts) && (seq < u64::MAX ==> orderly(
            bytes,
            gs,
            sb,
            journal::head_after(sb, pos, ts.len() as int),
            (seq + 1) as u64,
        )),
        _ => true,
    }
}

/// The blocks of one transaction.
pub open spec fn as_map(ts: Seq<u64>, blocks: Seq<Seq<u8>>) -> Map<u64, Seq<u8>> {
    Map::new(|b: u64| ts.contains(b), |b: u64| blocks[ts.index_of(b)])
}

/// What the log from `head` and `seq` on holds: each block as the last transaction that
/// names it has it.
pub open spec fn logged(bytes: Seq<u8>, gs: Seq<Group>, sb: Superblock, head: int, seq: u64) -> Map<
    u64,
    Seq<u8>,
>
    decreases u64::MAX - seq,
{
    match journal::next_txn(bytes, gs, sb, head, seq) {
        Ok(Some((pos, (ts, blocks)))) => if seq < u64::MAX {
            as_map(ts, blocks).union_prefer_right(
                logged(
                    bytes,
                    gs,
                    sb,
                    journal::head_after(sb, pos, ts.len() as int),
                    (seq + 1) as u64,
                ),
            )
        } else {
            as_map(ts, blocks)
        },
        _ => Map::empty(),
    }
}

/// The same journal in two states of the device, under two superblocks that place it
/// alike.
pub open spec fn alike(a: Seq<u8>, b: Seq<u8>, gs: Seq<Group>, x: Superblock, y: Superblock) -> bool {
    &&& x.blocksize == y.blocksize
    &&& x.journal_start == y.journal_start
    &&& x.journal_length == y.journal_length
    &&& journal_laws::same_log(a, b, gs, x, 0, x.journal_length as int)
}

/// What is found in the log depends on the journal alone.
proof fn lemma_alike(
    a: Seq<u8>,
    b: Seq<u8>,
    gs: Seq<Group>,
    x: Superblock,
    y: Superblock,
    head: int,
    seq: u64,
    n: u32,
)
    requires
        alike(a, b, gs, x, y),
        0 <= head,
    ensures
        journal::next_txn(a, gs, x, head, seq) == journal::next_txn(b, gs, y, head, seq),
        journal::pending(a, gs, x, head, seq, n) == journal::pending(b, gs, y, head, seq, n),
        orderly(a, gs, x, head, seq) == orderly(b, gs, y, head, seq),
        logged(a, gs, x, head, seq) == logged(b, gs, y, head, seq),
    decreases u64::MAX - seq,
{
    journal_laws::lemma_same_log_same_txn(a, b, gs, x, y, head, seq);
    journal_laws::lemma_same_log_same_txn(a, b, gs, x, y, 0, seq);
    if let Ok(Some((pos, (ts, blocks)))) = journal::next_txn(a, gs, x, head, seq) {
        if seq < u64::MAX {
            let h = journal::head_after(x, pos, ts.len() as int);
            lemma_alike(a, b, gs, x, y, h, (seq + 1) as u64, (n + 1) as u32);
        }
    }
}

/// Blocks that were read from the journal are whole.
proof fn lemma_reads_shape(bytes: Seq<u8>, gs: Seq<Group>, sb: Superblock, lo: int, hi: int)
    requires
        lo <= hi,
    ensures
        journal::journal_reads(bytes, gs, sb, lo, hi) matches Ok(bs) ==> bs.len() == hi - lo
            && forall|i: int| 0 <= i < bs.len() ==> (#[trigger] bs[i]).len() == sb.blocksize,
    decreases hi - lo,
{
    if lo < hi {
        lemma_reads_shape(bytes, gs, sb, lo, hi - 1);
    }
}

/// The shape of a transaction that was found.
proof fn lemma_txn_shape(bytes: Seq<u8>, gs: Seq<Group>, sb: Superblock, head: int, seq: u64)
    requires
        0 <= head,
    ensures
        journal::next_txn(bytes, gs, sb, head, seq) matches Ok(Some((pos, (ts, blocks)))) ==> 0
            <= pos && ts.len() == blocks.len() && forall|i: int|
            0 <= i < blocks.len() ==> (#[trigger] blocks[i]).len() == sb.blocksize,
{
    if let Ok(Some((pos, (ts, blocks)))) = journal::next_txn(bytes, gs, sb, head, seq) {
        let desc = journal::journal_read(bytes, gs, sb, pos)->Ok_0;
        let n = crate::fmt::u32_at(desc, 16) as int;
        lemma_reads_shape(bytes, gs, sb, pos + 1, pos + 1 + n);
    }
}

/// Putting the blocks of one proper transaction in place.
proof fn lemma_applied(d: Dev, gs: Seq<Group>, sb: Superblock, ts: Seq<u64>, blocks: Seq<Seq<u8>>)
    requires
        journal_laws::blocks_apart(gs, sb.blocksize),
        proper(gs, sb, ts),
        ts.len() == blocks.len(),
        forall|i: int| 0 <= i < blocks.len() ==> (#[trigger] blocks[i]).len() == sb.blocksize,
        device::dev_writes(d, journal::in_place(gs, sb.blocksize, ts, blocks)).1 is Ok,
    ensures
        ({
            let d1 = device::dev_writes(d, journal::in_place(gs, sb.blocksize, ts, blocks)).0;
            &&& d1.bytes.len() == d.bytes.len()
            &&& alike(d.bytes, d1.bytes, gs, sb, sb)
            &&& forall|blk: u64| #[trigger]
                block(d1.bytes, gs, sb.blocksize, blk) == if ts.contains(blk) {
                    Ok(as_map(ts, blocks)[blk])
                } else {
                    block(d.bytes, gs, sb.blocksize, blk)
                }
        }),
{
    let bs = sb.blocksize;
    let places = journal::in_place(gs, bs, ts, blocks);
    let d1 = device::dev_writes(d, places).0;
    journal_laws::lemma_writes_len(d, places);
    assert forall|x: u64| !ts.contains(x) implies #[trigger] block(d1.bytes, gs, bs, x) == block(
        d.bytes,
        gs,
        bs,
        x,
    ) by {
        if let Ok(p) = vol::place(gs, bs, x) {
            if p + bs <= d.bytes.len() {
                assert forall|i: int| 0 <= i < places.len() implies ((
                #[trigger] places[i]).0 matches Ok(q) ==> journal_laws::apart(
                    p as int,
                    bs as int,
                    q as int,
                    places[i].1.len() as int,
                )) by {
                    assert(ts.contains(ts[i]));
                    assert(blocks[i].len() == bs);
                }
                journal_laws::lemma_writes_frame(d, places, p as int, bs as int);
            }
        }
    }
    assert forall|i: int| 0 <= i < sb.journal_length implies #[trigger] journal::journal_read(
        d.bytes,
        gs,
        sb,
        i,
    ) == journal::journal_read(d1.bytes, gs, sb, i) by {
        if let Ok(p) = journal::journal_place(gs, sb, i) {
            let x = (sb.journal_start + i) as u64;
            if ts.contains(x) {
                let k = choose|k: int| 0 <= k < ts.len() && ts[k] == x;
                assert(!(sb.journal_start <= ts[k] < sb.journal_start + sb.journal_length));
            }
            assert(block(d1.bytes, gs, bs, x) == block(d.bytes, gs, bs, x));
        }
    }
    assert forall|x: u64| ts.contains(x) implies #[trigger] block(d1.bytes, gs, bs, x) == Ok::<
        Seq<u8>,
        FsError,
    >(as_map(ts, blocks)[x]) by {
        let k = ts.index_of(x);
        journal_laws::lemma_in_place_reads(d, gs, bs, ts, blocks, k);
    }
}

/// Replay of an orderly log from `head` and `seq` on.
proof fn lemma_replayed(d: Dev, gs: Seq<Group>, sb: Superblock, head: int, seq: u64, n: u32)
    requires
        0 <= head,
        journal_laws::blocks_apart(gs, sb.blocksize),
        orderly(d.bytes, gs, sb, head, seq),
    ensures
        ({
            let (d1, r) = journal::replayed(d, gs, sb, head, seq, n);
            let all = logged(d.bytes, gs, sb, head, seq);
            r matches Ok((h, s, m)) ==> {
                &&& journal::pending(d.bytes, gs, sb, head, seq, n) == Ok::<u32, FsError>(m)
                &&& s == seq + (m - n)
                &&& forall|blk: u64| #[trigger]
                    block(d1.bytes, gs, sb.blocksize, blk) == if all.contains_key(blk) {
                        Ok(all[blk])
                    } else {
                        block(d.bytes, gs, sb.blocksize, blk)
                    }
            }
        }),
    decreases u64::MAX - seq,
{
    lemma_txn_shape(d.bytes, gs, sb, head, seq);
    if let Ok(Some((pos, (ts, blocks)))) = journal::next_txn(d.bytes, gs, sb, head, seq) {
        if seq < u64::MAX && n < u32::MAX {
            let places = journal::in_place(gs, sb.blocksize, ts, blocks);
            let (d1, r1) = device::dev_writes(d, places);
            if r1 is Ok {
                let h = journal::head_after(sb, pos, ts.len() as int);
                let next = (seq + 1) as u64;
                lemma_applied(d, gs, sb, ts, blocks);
                lemma_alike(d.bytes, d1.bytes, gs, sb, sb, h, next, (n + 1) as u32);
                lemma_replayed(d1, gs, sb, h, next, (n + 1) as u32);
                let (d2, r2) = journal::replayed(d1, gs, sb, h, next, (n + 1) as u32);
                let rest = logged(d.bytes, gs, sb, h, next);
                let all = logged(d.bytes, gs, sb, head, seq);
                assert forall|x: u64| r2 is Ok implies #[trigger] block(
                    d2.bytes,
                    gs,
                    sb.blocksize,
                    x,
                ) == if all.contains_key(x) {
                    Ok::<Seq<u8>, FsError>(all[x])
                } else {
                    block(d.bytes, gs, sb.blocksize, x)
                } by {
                    assert(block(d1.bytes, gs, sb.blocksize, x) == if ts.contains(x) {
                        Ok(as_map(ts, blocks)[x])
                    } else {
                        block(d.bytes, gs, sb.blocksize, x)
                    });
                    assert(all.contains_key(x) == (ts.contains(x) || rest.contains_key(x)));
                }
            }
        }
    }
}

/// Writing the superblock leaves the journal, and every block elsewhere, as it was.
proof fn lemma_super_written(d: Dev, sb: Superblock, gs: Seq<Group>)
    requires
        journal_laws::journal_off_superblock(gs, sb),
    ensures
        ({
            let d1 = fs::sb_write(d, sb, gs).0;
            &&& d1.bytes.len() == d.bytes.len()
            &&& alike(d.bytes, d1.bytes, gs, sb, sb)
            &&& forall|blk: u64|
                journal_laws::block_off_superblock(gs, sb.blocksize, blk) ==> #[trigger] block(
                    d1.bytes,
                    gs,
                    sb.blocksize,
                    blk,
                ) == block(d.bytes, gs, sb.blocksize, blk)
        }),
{
    let d1 = fs::sb_write(d, sb, gs).0;
    if sb.gen < u64::MAX {
        journal_laws::lemma_writes_len(
            d,
            fs::sb_writes(Superblock { gen: (sb.gen + 1) as u64, ..sb }, gs),
        );
    }
    assert forall|i: int| 0 <= i < sb.journal_length implies #[trigger] journal::journal_read(
        d.bytes,
        gs,
        sb,
        i,
    ) == journal::journal_read(d1.bytes, gs, sb, i) by {
        if let Ok(p) = journal::journal_place(gs, sb, i) {
            if p + sb.blocksize <= d.bytes.len() {
                journal_laws::lemma_sb_write_frame(d, sb, gs, p as int, sb.blocksize as int);
            }
        }
    }
    assert forall|blk: u64|
        journal_laws::block_off_superblock(gs, sb.blocksize, blk) implies #[trigger] block(
        d1.bytes,
        gs,
        sb.blocksize,
        blk,
    ) == block(d.bytes, gs, sb.blocksize, blk) by {
        if let Ok(p) = vol::place(gs, sb.blocksize, blk) {
            if p + sb.blocksize <= d.bytes.len() {
                journal_laws::lemma_sb_write_frame(d, sb, gs, p as int, sb.blocksize as int);
            }
        }
    }
}

/// The blocks that an orderly log holds lie under no copy of the superblock.
proof fn lemma_logged_off(bytes: Seq<u8>, gs: Seq<Group>, sb: Superblock, head: int, seq: u64, blk: u64)
    requires
        orderly(bytes, gs, sb, head, seq),
        logged(bytes, gs, sb, head, seq).contains_key(blk),
    ensures
        journal_laws::block_off_superblock(gs, sb.blocksize, blk),
    decreases u64::MAX - seq,
{
    if let Ok(Some((pos, (ts, blocks)))) = journal::next_txn(bytes, gs, sb, head, seq) {
        if ts.contains(blk) {
            let k = choose|k: int| 0 <= k < ts.len() && ts[k] == blk;
            assert(journal_laws::block_off_superblock(gs, sb.blocksize, ts[k]));
        } else {
            lemma_logged_off(
                bytes,
                gs,
                sb,
                journal::head_after(sb, pos, ts.len() as int),
                (seq + 1) as u64,
                blk,
            );
        }
    }
}

/// Replay applies as many transactions as are pending, each once and in order: the
/// journal's number goes up by that many, nothing is pending any more, every block
/// that the log holds has its contents, and every other block outside the superblock
/// is as it was. A second replay applies nothing and changes nothing.
pub proof fn law_replay_applies_what_is_pending(d: Dev, sb: Superblock, gs: Seq<Group>)
    requires
        journal_laws::blocks_apart(gs, sb.blocksize),
        journal_laws::journal_off_superblock(gs, sb),
        orderly(d.bytes, gs, sb, sb.journal_head as int, sb.journal_seq),
        journal::replay_all(d, sb, gs).2 is Ok,
    ensures
        ({
            let (d1, sb1, r) = journal::replay_all(d, sb, gs);
            let all = logged(d.bytes, gs, sb, sb.journal_head as int, sb.journal_seq);
            &&& journal::pending(d.bytes, gs, sb, sb.journal_head as int, sb.journal_seq, 0) == r
            &&& sb1.journal_seq == sb.journal_seq + r->Ok_0
            &&& journal::pending(d1.bytes, gs, sb1, sb1.journal_head as int, sb1.journal_seq, 0)
                == Ok::<u32, FsError>(0)
            &&& journal::replay_all(d1, sb1, gs) == (d1, sb1, Ok::<u32, FsError>(0))
            &&& forall|blk: u64|
                all.contains_key(blk) ==> #[trigger] block(d1.bytes, gs, sb.blocksize, blk) == Ok::<
                    Seq<u8>,
                    FsError,
                >(all[blk])
            &&& forall|blk: u64|
                !all.contains_key(blk) && journal_laws::block_off_superblock(gs, sb.blocksize, blk)
                    ==> #[trigger] block(d1.bytes, gs, sb.blocksize, blk) == block(
                    d.bytes,
                    gs,
                    sb.blocksize,
                    blk,
                )
        }),
{
    let head = sb.journal_head as int;
    let seq = sb.journal_seq;
    let all = logged(d.bytes, gs, sb, head, seq);
    let (dr, r) = journal::replayed(d, gs, sb, head, seq, 0);
    lemma_replayed(d, gs, sb, head, seq, 0);
    journal_laws::lemma_replay_stops(d, gs, sb, head, seq, 0);
    journal_laws::law_replay_is_idempotent(d, sb, gs);
    let (d1, sb1, _) = journal::replay_all(d, sb, gs);
    journal_laws::lemma_replay_stops(
        d1,
        gs,
        sb1,
        sb1.journal_head as int,
        sb1.journal_seq,
        0,
    );
    let (h, s, n) = r->Ok_0;
    if n > 0 {
        let mid = Superblock { journal_head: h as u64, journal_seq: s, ..sb };
        assert(journal_laws::journal_off_superblock(gs, mid)) by {
            assert forall|i: int|
                (#[trigger] journal::journal_place(gs, mid, i)) matches Ok(p)
                implies journal_laws::off_superblock(
                gs,
                mid.blocksize,
                journal::journal_place(gs, mid, i)->Ok_0 as int,
                mid.blocksize as int,
            ) by {
                assert(journal::journal_place(gs, mid, i) == journal::journal_place(gs, sb, i));
            }
        }
        lemma_super_written(device::dev_sync(dr), mid, gs);
    }
    assert forall|blk: u64| all.contains_key(blk) implies #[trigger] block(
        d1.bytes,
        gs,
        sb.blocksize,
        blk,
    ) == Ok::<Seq<u8>, FsError>(all[blk]) by {
        lemma_logged_off(d.bytes, gs, sb, head, seq, blk);
        assert(block(dr.bytes, gs, sb.blocksize, blk) == Ok::<Seq<u8>, FsError>(all[blk]));
    }
    assert forall|blk: u64|
        !all.contains_key(blk) && journal_laws::block_off_superblock(gs, sb.blocksize, blk)
        implies #[trigger] block(d1.bytes, gs, sb.blocksize, blk) == block(
        d.bytes,
        gs,
        sb.blocksize,
        blk,
    ) by {
        assert(block(dr.bytes, gs, sb.blocksize, blk) == block(d.bytes, gs, sb.blocksize, blk));
    }
}

/// A volume that was opened for writing is up to date: nothing is pending in its
/// journal, and every block that the log held has its contents.
pub proof fn law_opened_volume_is_up_to_date(d: Dev, sb: Superblock)
    requires
        d.writable,
        opening::found_super(d.bytes) == Ok::<Superblock, FsError>(sb),
        opening::opened(d) is Ok,
        ({
            let gs = opening::opened(d)->Ok_0.2.entries;
            &&& journal_laws::blocks_apart(gs, sb.blocksize)
            &&& journal_laws::journal_off_superblock(gs, sb)
            &&& orderly(d.bytes, gs, sb, sb.journal_head as int, sb.journal_seq)
        }),
    ensures
        ({
            let (d1, sb1, m) = opening::opened(d)->Ok_0;
            let gs = m.entries;
            let all = logged(d.bytes, gs, sb, sb.journal_head as int, sb.journal_seq);
            &&& journal::pending(d1.bytes, gs, sb1, sb1.journal_head as int, sb1.journal_seq, 0)
                == Ok::<u32, FsError>(0)
            &&& forall|blk: u64|
                all.contains_key(blk) ==> #[trigger] block(d1.bytes, gs, sb.blocksize, blk) == Ok::<
                    Seq<u8>,
                    FsError,
                >(all[blk])
        }),
{
    let (d2, sb2, m) = opening::opened(d)->Ok_0;
    let gs = m.entries;
    let head = sb.journal_head as int;
    let all = logged(d.bytes, gs, sb, head, sb.journal_seq);
    law_replay_applies_what_is_pending(d, sb, gs);
    let (d1, sb1, _) = journal::replay_all(d, sb, gs);
    lemma_journal_stays(sb, sb1, gs);
    if opening::copies_differ(d1.bytes, gs, sb1.blocksize) {
        lemma_super_written(d1, sb1, gs);
        lemma_alike(
            d1.bytes,
            d2.bytes,
            gs,
            sb1,
            sb2,
            sb1.journal_head as int,
            sb1.journal_seq,
            0,
        );
    }
    assert forall|blk: u64| all.contains_key(blk) implies #[trigger] block(
        d2.bytes,
        gs,
        sb.blocksize,
        blk,
    ) == Ok::<Seq<u8>, FsError>(all[blk]) by {
        lemma_logged_off(d.bytes, gs, sb, head, sb.journal_seq, blk);
        assert(block(d1.bytes, gs, sb.blocksize, blk) == Ok::<Seq<u8>, FsError>(all[blk]));
    }
}

/// A superblock that places the journal alike.
proof fn lemma_journal_stays(x: Superblock, y: Superblock, gs: Seq<Group>)
    requires
        x.blocksize == y.blocksize,
        x.journal_start == y.journal_start,
        x.journal_length == y.journal_length,
        journal_laws::journal_off_superblock(gs, x),
    ensures
        journal_laws::journal_off_superblock(gs, y),
{
    assert forall|i: int| (#[trigger] journal::journal_place(gs, y, i)) is Ok implies
        journal_laws::off_superblock(
        gs,
        y.blocksize,
        journal::journal_place(gs, y, i)->Ok_0 as int,
        y.blocksize as int,
    ) by {
        assert(journal::journal_place(gs, y, i) == journal::journal_place(gs, x, i));
    }
}

/// Both copies of a superblock that was written read as it.
proof fn lemma_super_reads(d: Dev, sb: Superblock, gs: Seq<Group>)
    requires
        superblock::is_pow2(sb.blocksize as int),
        sb.blocksize >= 512,
        fs::backup_place(gs, sb.blocksize) matches Some(Ok(q)) ==> q >= 512,
        fs::sb_write(d, sb, gs).2 is Ok,
    ensures
        ({
            let (d1, sb1, _) = fs::sb_write(d, sb, gs);
            &&& opening::super_at(d1.bytes, 0) == Ok::<Superblock, FsError>(sb1)
            &&& !opening::copies_differ(d1.bytes, gs, sb.blocksize)
        }),
{
    let (d1, sb1, _) = fs::sb_write(d, sb, gs);
    let items = fs::sb_writes(sb1, gs);
    journal_laws::lemma_sb_bytes_len(sb1);
    superblock::law_superblock_round_trip(sb1);
    journal_laws::lemma_writes_len(d, items);
    if items.len() > 1 {
        journal_laws::lemma_writes_ok(d, items, 1);
        journal_laws::lemma_writes_hit(d, items, 1);
    }
    journal_laws::lemma_writes_hit(d, items, 0);
}

/// Opening again what was opened for writing finds the same and changes nothing,
/// where the log did not touch the map of the groups.
pub proof fn law_opening_again_changes_nothing(d: Dev, sb: Superblock)
    requires
        d.writable,
        opening::found_super(d.bytes) == Ok::<Superblock, FsError>(sb),
        superblock::is_pow2(sb.blocksize as int),
        sb.blocksize >= 512,
        opening::opened(d) is Ok,
        ({
            let (d1, sb1, m) = opening::opened(d)->Ok_0;
            let gs = m.entries;
            &&& journal_laws::journal_off_superblock(gs, sb)
            &&& fs::backup_place(gs, sb.blocksize) matches Some(Ok(q)) ==> q >= 512
            &&& fs::best_map(d1.bytes, sb1) == fs::best_map(d.bytes, sb)
        }),
    ensures
        opening::opened(opening::opened(d)->Ok_0.0) == opening::opened(d),
{
    let (d2, sb2, m) = opening::opened(d)->Ok_0;
    let gs = m.entries;
    let (d1, sb1, r) = journal::replay_all(d, sb, gs);
    journal_laws::law_replay_is_idempotent(d, sb, gs);
    let (dr, rr) = journal::replayed(d, gs, sb, sb.journal_head as int, sb.journal_seq, 0);
    journal_laws::lemma_replay_stops(d, gs, sb, sb.journal_head as int, sb.journal_seq, 0);
    let (h, s, n) = rr->Ok_0;
    if n > 0 {
        let mid = Superblock { journal_head: h as u64, journal_seq: s, ..sb };
        lemma_super_reads(device::dev_sync(dr), mid, gs);
    }
    if opening::copies_differ(d1.bytes, gs, sb1.blocksize) {
        lemma_journal_stays(sb, sb1, gs);
        lemma_super_reads(d1, sb1, gs);
        lemma_super_written(d1, sb1, gs);
        journal_laws::lemma_replay_stops(
            d1,
            gs,
            sb1,
            sb1.journal_head as int,
            sb1.journal_seq,
            0,
        );
        lemma_alike(
            d1.bytes,
            d2.bytes,
            gs,
            sb1,
            sb2,
            sb1.journal_head as int,
            sb1.journal_seq,
            0,
        );
        let fs1 = fs::sb_write(d1, sb1, gs).0;
        journal_laws::lemma_writes_len(d1, fs::sb_writes(sb2, gs));
    }
}

} // verus!
