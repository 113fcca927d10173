//! What the journal promises: a committed transaction reads back, survives a
//! crash once its log blocks are durable, and is not applied a second time.

use crate::agmap::Group;
use crate::device::Dev;
use crate::error::FsError;
use crate::fmt::{JCOMMIT_MAGIC, JDESC_MAGIC};
use crate::superblock::Superblock;
use crate::vol::Vol;
use vstd::prelude::*;

use crate::device;
use crate::fmt;
use crate::fs;
use crate::journal;
use crate::superblock;
use crate::txn;
use crate::vol;

verus! {

/// Two ranges of bytes share nothing.
pub open spec fn apart(p: int, n: int, q: int, m: int) -> bool {
    p + n <= q || q + m <= p
}

/// No two blocks have the same place.
pub open spec fn blocks_apart(gs: Seq<Group>, bs: u32) -> bool {
    forall|a: u64, b: u64|
        #![trigger vol::place(gs, bs, a), vol::place(gs, bs, b)]
        a != b && vol::place(gs, bs, a) is Ok && vol::place(gs, bs, b) is Ok ==> apart(
            vol::place(gs, bs, a)->Ok_0 as int,
            bs as int,
            vol::place(gs, bs, b)->Ok_0 as int,
            bs as int,
        )
}

/// The range touches neither the superblock nor its backup.
pub open spec fn off_superblock(gs: Seq<Group>, bs: u32, p: int, n: int) -> bool {
    &&& apart(p, n, 0, 512)
    &&& match fs::backup_place(gs, bs) {
        Some(Ok(q)) => apart(p, n, q as int, 512),
        _ => true,
    }
}

/// The block lies elsewhere than the superblock and its backup.
pub open spec fn block_off_superblock(gs: Seq<Group>, bs: u32, blk: u64) -> bool {
    vol::place(gs, bs, blk) matches Ok(p) ==> off_superblock(gs, bs, p as int, bs as int)
}

/// The journal lies elsewhere than the superblock and its backup.
pub open spec fn journal_off_superblock(gs: Seq<Group>, sb: Superblock) -> bool {
    forall|i: int|
        (#[trigger] journal::journal_place(gs, sb, i)) matches Ok(p) ==> off_superblock(
            gs,
            sb.blocksize,
            p as int,
            sb.blocksize as int,
        )
}

// --- writes -------------------------------------------------------------------

/// Writes keep the size of the device, and every range that none of them
/// touches.
pub proof fn lemma_writes_frame(
    d: Dev,
    items: Seq<(Result<u64, FsError>, Seq<u8>)>,
    p: int,
    n: int,
)
    requires
        0 <= p,
        0 <= n,
        p + n <= d.bytes.len(),
        forall|i: int|
            0 <= i < items.len() ==> ((#[trigger] items[i]).0 matches Ok(q) ==> apart(
                p,
                n,
                q as int,
                items[i].1.len() as int,
            )),
    ensures
        device::dev_writes(d, items).0.bytes.len() == d.bytes.len(),
        device::dev_writes(d, items).0.writable == d.writable,
        device::dev_writes(d, items).0.bytes.subrange(p, p + n) == d.bytes.subrange(p, p + n),
    decreases items.len(),
{
    if items.len() > 0 {
        if let Ok(q) = items[0].0 {
            let (d1, r) = device::dev_write(d, q, items[0].1);
            assert(apart(p, n, q as int, items[0].1.len() as int));
            assert(d1.bytes.subrange(p, p + n) =~= d.bytes.subrange(p, p + n));
            if r is Ok {
                assert forall|i: int| 0 <= i < items.skip(1).len() implies ((
                #[trigger] items.skip(1)[i]).0 matches Ok(q) ==> apart(
                    p,
                    n,
                    q as int,
                    items.skip(1)[i].1.len() as int,
                )) by {
                    assert(items.skip(1)[i] == items[i + 1]);
                }
                lemma_writes_frame(d1, items.skip(1), p, n);
            }
        }
    }
}

/// Writes keep the size of the device.
pub proof fn lemma_writes_len(d: Dev, items: Seq<(Result<u64, FsError>, Seq<u8>)>)
    ensures
        device::dev_writes(d, items).0.bytes.len() == d.bytes.len(),
        device::dev_writes(d, items).0.writable == d.writable,
    decreases items.len(),
{
    if items.len() > 0 {
        if let Ok(q) = items[0].0 {
            let (d1, r) = device::dev_write(d, q, items[0].1);
            if r is Ok {
                lemma_writes_len(d1, items.skip(1));
            }
        }
    }
}

/// A write that no later one touches stands at its place afterwards.
pub proof fn lemma_writes_hit(d: Dev, items: Seq<(Result<u64, FsError>, Seq<u8>)>, k: int)
    requires
        0 <= k < items.len(),
        device::dev_writes(d, items).1 is Ok,
        items[k].0 is Ok,
        forall|i: int|
            k < i < items.len() ==> ((#[trigger] items[i]).0 matches Ok(q) ==> apart(
                items[k].0->Ok_0 as int,
                items[k].1.len() as int,
                q as int,
                items[i].1.len() as int,
            )),
    ensures
        items[k].0->Ok_0 + items[k].1.len() <= d.bytes.len(),
        device::dev_writes(d, items).0.bytes.subrange(
            items[k].0->Ok_0 as int,
            items[k].0->Ok_0 + items[k].1.len(),
        ) == items[k].1,
    decreases k,
{
    let q = items[0].0->Ok_0;
    let (d1, r) = device::dev_write(d, q, items[0].1);
    if k == 0 {
        assert(d1.bytes.subrange(q as int, q + items[0].1.len()) =~= items[0].1);
        assert forall|i: int| 0 <= i < items.skip(1).len() implies ((
        #[trigger] items.skip(1)[i]).0 matches Ok(x) ==> apart(
            q as int,
            items[0].1.len() as int,
            x as int,
            items.skip(1)[i].1.len() as int,
        )) by {
            assert(items.skip(1)[i] == items[i + 1]);
        }
        lemma_writes_frame(d1, items.skip(1), q as int, items[0].1.len() as int);
    } else {
        assert(items.skip(1)[k - 1] == items[k]);
        assert forall|i: int| k - 1 < i < items.skip(1).len() implies ((
        #[trigger] items.skip(1)[i]).0 matches Ok(x) ==> apart(
            items[k].0->Ok_0 as int,
            items[k].1.len() as int,
            x as int,
            items.skip(1)[i].1.len() as int,
        )) by {
            assert(items.skip(1)[i] == items[i + 1]);
        }
        lemma_writes_hit(d1, items.skip(1), k - 1);
    }
}

/// If all writes succeed, each had a place.
pub proof fn lemma_writes_ok(d: Dev, items: Seq<(Result<u64, FsError>, Seq<u8>)>, k: int)
    requires
        0 <= k < items.len(),
        device::dev_writes(d, items).1 is Ok,
    ensures
        items[k].0 is Ok,
    decreases k,
{
    if k > 0 {
        let (d1, r) = device::dev_write(d, items[0].0->Ok_0, items[0].1);
        assert(items.skip(1)[k - 1] == items[k]);
        lemma_writes_ok(d1, items.skip(1), k - 1);
    }
}

/// A superblock takes one block of 512 bytes.
pub proof fn lemma_sb_bytes_len(sb: Superblock)
    ensures
        superblock::sb_bytes(sb).len() == 512,
{
    reveal(superblock::sb_body);
}

/// Writing the superblock leaves everything else as it was.
pub proof fn lemma_sb_write_frame(d: Dev, sb: Superblock, gs: Seq<Group>, p: int, n: int)
    requires
        0 <= p,
        0 <= n,
        p + n <= d.bytes.len(),
        off_superblock(gs, sb.blocksize, p, n),
    ensures
        fs::sb_write(d, sb, gs).0.bytes.len() == d.bytes.len(),
        fs::sb_write(d, sb, gs).0.bytes.subrange(p, p + n) == d.bytes.subrange(p, p + n),
{
    if sb.gen < u64::MAX {
        let sb1 = Superblock { gen: (sb.gen + 1) as u64, ..sb };
        lemma_sb_bytes_len(sb1);
        lemma_writes_frame(d, fs::sb_writes(sb1, gs), p, n);
    }
}

// --- commit -------------------------------------------------------------------

/// The blocks of a transaction in place: each reads back what was written.
pub proof fn lemma_in_place_reads(
    d: Dev,
    gs: Seq<Group>,
    bs: u32,
    ts: Seq<u64>,
    blocks: Seq<Seq<u8>>,
    k: int,
)
    requires
        blocks_apart(gs, bs),
        ts.len() == blocks.len(),
        forall|i: int, j: int| 0 <= i < j < ts.len() ==> ts[i] != ts[j],
        forall|i: int| 0 <= i < ts.len() ==> (#[trigger] blocks[i]).len() == bs,
        device::dev_writes(d, journal::in_place(gs, bs, ts, blocks)).1 is Ok,
        0 <= k < ts.len(),
    ensures
        vol::rd0(
            Vol {
                bytes: device::dev_writes(d, journal::in_place(gs, bs, ts, blocks)).0.bytes,
                groups: gs,
                bs,
            },
            ts[k],
        ) == Ok::<Seq<u8>, FsError>(blocks[k]),
{
    let items = journal::in_place(gs, bs, ts, blocks);
    lemma_writes_ok(d, items, k);
    assert forall|i: int| k < i < items.len() implies ((#[trigger] items[i]).0 matches Ok(q) ==> apart(
        items[k].0->Ok_0 as int,
        items[k].1.len() as int,
        q as int,
        items[i].1.len() as int,
    )) by {
        assert(ts[k] != ts[i]);
        assert(blocks[i].len() == bs && blocks[k].len() == bs);
    }
    assert(blocks[k].len() == bs);
    lemma_writes_hit(d, items, k);
    lemma_writes_len(d, items);
}

/// After a commit every block of the transaction reads back what the
/// transaction held for it.
pub proof fn law_commit_reads_back(
    d: Dev,
    sb: Superblock,
    gs: Seq<Group>,
    t: Map<u64, Seq<u8>>,
    blk: u64,
)
    requires
        t.dom().finite(),
        vol::txn_ok(t, sb.blocksize),
        blocks_apart(gs, sb.blocksize),
        t.contains_key(blk),
        block_off_superblock(gs, sb.blocksize, blk),
        journal::committed(d, sb, gs, t).2 is Ok,
    ensures
        vol::rd0(
            Vol {
                bytes: journal::committed(d, sb, gs, t).0.bytes,
                groups: gs,
                bs: sb.blocksize,
            },
            blk,
        ) == Ok::<Seq<u8>, FsError>(t[blk]),
{
    let bs = sb.blocksize;
    let ts = txn::order(t);
    txn::lemma_order_lists(t);
    let n = t.dom().len() as int;
    assert(!(t.dom() == Set::<u64>::empty())) by {
        assert(t.dom().contains(blk));
    }
    let head = journal::commit_head(sb, n);
    let (d1, r1) = device::dev_writes(d, journal::log_writes(gs, sb, head, t));
    let all = journal::contents(t);
    let places = journal::in_place(gs, bs, ts, all);
    let (d2, r2) = device::dev_writes(device::dev_sync(d1), places);
    let sb1 = Superblock {
        journal_head: journal::head_after(sb, head, n) as u64,
        journal_seq: (sb.journal_seq + 1) as u64,
        ..sb
    };
    assert(ts.contains(blk));
    let k = choose|k: int| 0 <= k < ts.len() && ts[k] == blk;
    assert forall|i: int| 0 <= i < ts.len() implies (#[trigger] all[i]).len() == bs by {
        assert(ts.contains(ts[i]));
        assert(t.contains_key(ts[i]));
    }
    lemma_in_place_reads(device::dev_sync(d1), gs, bs, ts, all, k);
    let p = vol::place(gs, bs, blk)->Ok_0;
    lemma_sb_write_frame(device::dev_sync(d2), sb1, gs, p as int, bs as int);
}

/// A commit changes nothing outside its own blocks, the journal and the
/// superblock.
pub proof fn law_commit_keeps_the_rest(
    d: Dev,
    sb: Superblock,
    gs: Seq<Group>,
    t: Map<u64, Seq<u8>>,
    blk: u64,
)
    requires
        t.dom().finite(),
        vol::txn_ok(t, sb.blocksize),
        blocks_apart(gs, sb.blocksize),
        sb.blocksize >= 512,
        !t.contains_key(blk),
        !(sb.journal_start <= blk < sb.journal_start + sb.journal_length),
        block_off_superblock(gs, sb.blocksize, blk),
    ensures
        vol::rd0(
            Vol {
                bytes: journal::committed(d, sb, gs, t).0.bytes,
                groups: gs,
                bs: sb.blocksize,
            },
            blk,
        ) == vol::rd0(Vol { bytes: d.bytes, groups: gs, bs: sb.blocksize }, blk),
{
    let bs = sb.blocksize;
    let ts = txn::order(t);
    txn::lemma_order_lists(t);
    let n = t.dom().len() as int;
    let head = journal::commit_head(sb, n);
    let log = journal::log_writes(gs, sb, head, t);
    let (d1, r1) = device::dev_writes(d, log);
    lemma_writes_len(d, log);
    let all = journal::contents(t);
    let places = journal::in_place(gs, bs, ts, all);
    let (d2, r2) = device::dev_writes(device::dev_sync(d1), places);
    lemma_writes_len(device::dev_sync(d1), places);
    let sb1 = Superblock {
        journal_head: journal::head_after(sb, head, n) as u64,
        journal_seq: (sb.journal_seq + 1) as u64,
        ..sb
    };
    let w = fs::sb_write(device::dev_sync(d2), sb1, gs);
    if sb1.gen < u64::MAX {
        lemma_writes_len(
            device::dev_sync(d2),
            fs::sb_writes(Superblock { gen: (sb1.gen + 1) as u64, ..sb1 }, gs),
        );
    }
    if let Ok(p) = vol::place(gs, bs, blk) {
        if p + bs <= d.bytes.len() && !(t.dom() == Set::<u64>::empty()) && n <= (bs - 24) / 8 && n
            + 2 <= sb.journal_length {
            lemma_log_block_lens(bs as int, sb.journal_seq, ts, fmt::crc32c_of(
                journal::desc_image(bs as int, sb.journal_seq, ts) + journal::flat(all)));
            assert forall|i: int| 0 <= i < log.len() implies ((#[trigger] log[i]).0 matches Ok(
                q,
            ) ==> apart(p as int, bs as int, q as int, log[i].1.len() as int)) by {
                assert(log[i].0 == journal::journal_place(gs, sb, head + i));
                if 0 < i <= ts.len() {
                    assert(ts.contains(ts[i - 1]));
                    assert(t.contains_key(ts[i - 1]));
                    assert(log[i].1 == t[ts[i - 1]]);
                }
                assert(log[i].1.len() == bs);
                if log[i].0 is Ok {
                    let idx = (sb.journal_start + head + i) as u64;
                    assert(log[i].0 == vol::place(gs, bs, idx));
                }
            }
            lemma_writes_frame(d, log, p as int, bs as int);
            assert forall|i: int| 0 <= i < places.len() implies ((#[trigger] places[i]).0 matches Ok(
                q,
            ) ==> apart(p as int, bs as int, q as int, places[i].1.len() as int)) by {
                assert(ts.contains(ts[i]));
                assert(t.contains_key(ts[i]));
            }
            lemma_writes_frame(device::dev_sync(d1), places, p as int, bs as int);
            lemma_sb_write_frame(device::dev_sync(d2), sb1, gs, p as int, bs as int);
        }
    }
}

/// Descriptor and commit blocks are one block long.
pub proof fn lemma_log_block_lens(bs: int, seq: u64, ts: Seq<u64>, sum: u32)
    requires
        24 + 8 * ts.len() <= bs,
    ensures
        journal::desc_image(bs, seq, ts).len() == bs,
        journal::commit_image(bs, seq, sum).len() == bs,
{
}

/// A descriptor says what it was made from.
pub proof fn lemma_desc_decode(bs: int, seq: u64, ts: Seq<u64>)
    requires
        24 + 8 * ts.len() <= bs <= u32::MAX,
    ensures
        journal::log_block_ok(journal::desc_image(bs, seq, ts), JDESC_MAGIC, seq),
        fmt::u32_at(journal::desc_image(bs, seq, ts), 16) == ts.len(),
        journal::desc_targets(journal::desc_image(bs, seq, ts)) == ts,
{
    let b0 = fmt::splice(fmt::zeros(bs as nat), 0, JDESC_MAGIC@);
    let b1 = fmt::splice(b0, 8, fmt::be64(seq));
    let b2 = fmt::splice(b1, 16, fmt::be32(ts.len() as u32));
    let b3 = fmt::splice(b2, 24, journal::addrs_bytes(ts));
    let b = fmt::sealed(b3);
    fmt::lemma_sealed(b3);
    assert(b.subrange(8, 16) =~= fmt::be64(seq)) by {
        assert(b3.subrange(8, 16) =~= fmt::be64(seq));
        assert(b.subrange(8, 16) =~= b3.subrange(8, 16));
    }
    fmt::lemma_range_u64(b, 8, seq);
    assert(b.subrange(16, 20) =~= fmt::be32(ts.len() as u32)) by {
        assert(b3.subrange(16, 20) =~= fmt::be32(ts.len() as u32));
        assert(b.subrange(16, 20) =~= b3.subrange(16, 20));
    }
    fmt::lemma_range_u32(b, 16, ts.len() as u32);
    assert forall|i: int| 0 <= i < ts.len() implies #[trigger] fmt::u64_at(b, 24 + 8 * i)
        == ts[i] by {
        let a = journal::addrs_bytes(ts);
        assert forall|k: int| 0 <= k < 8 implies b[24 + 8 * i + k] == fmt::be64(ts[i])[k] by {
            assert(b3[24 + 8 * i + k] == a[8 * i + k]);
            assert((8 * i + k) / 8 == i && (8 * i + k) % 8 == k);
        }
        assert(b.subrange(24 + 8 * i, 24 + 8 * i + 8) =~= fmt::be64(ts[i]));
        fmt::lemma_range_u64(b, 24 + 8 * i, ts[i]);
    }
    assert(journal::desc_targets(b) =~= ts);
    assert(fmt::has_magic(b, JDESC_MAGIC)) by {
        assert(b[0] == b3[0] && b[1] == b3[1] && b[2] == b3[2] && b[3] == b3[3]);
    }
}

/// A commit block says what it was made from.
pub proof fn lemma_commit_decode(bs: int, seq: u64, sum: u32)
    requires
        24 <= bs,
    ensures
        journal::log_block_ok(journal::commit_image(bs, seq, sum), JCOMMIT_MAGIC, seq),
        fmt::u32_at(journal::commit_image(bs, seq, sum), 16) == sum,
{
    let b0 = fmt::splice(fmt::zeros(bs as nat), 0, JCOMMIT_MAGIC@);
    let b1 = fmt::splice(b0, 8, fmt::be64(seq));
    let b3 = fmt::splice(b1, 16, fmt::be32(sum));
    let b = fmt::sealed(b3);
    fmt::lemma_sealed(b3);
    assert(b.subrange(8, 16) =~= fmt::be64(seq)) by {
        assert(b3.subrange(8, 16) =~= fmt::be64(seq));
        assert(b.subrange(8, 16) =~= b3.subrange(8, 16));
    }
    fmt::lemma_range_u64(b, 8, seq);
    assert(b.subrange(16, 20) =~= fmt::be32(sum)) by {
        assert(b3.subrange(16, 20) =~= fmt::be32(sum));
        assert(b.subrange(16, 20) =~= b3.subrange(16, 20));
    }
    fmt::lemma_range_u32(b, 16, sum);
    assert(fmt::has_magic(b, JCOMMIT_MAGIC)) by {
        assert(b[0] == b3[0] && b[1] == b3[1] && b[2] == b3[2] && b[3] == b3[3]);
    }
}

/// Two states of the device hold the same journal blocks `lo` to `hi`.
pub open spec fn same_log(
    a: Seq<u8>,
    b: Seq<u8>,
    gs: Seq<Group>,
    sb: Superblock,
    lo: int,
    hi: int,
) -> bool {
    forall|i: int|
        lo <= i < hi ==> #[trigger] journal::journal_read(a, gs, sb, i) == journal::journal_read(
            b,
            gs,
            sb,
            i,
        )
}

/// Once the log blocks of a transaction are durable, the transaction is found
/// whole in the log, whatever happened to the device elsewhere.
pub proof fn law_logged_transaction_is_found(
    d: Dev,
    sb: Superblock,
    gs: Seq<Group>,
    t: Map<u64, Seq<u8>>,
    bytes: Seq<u8>,
)
    requires
        t.dom().finite(),
        t.dom().len() > 0,
        vol::txn_ok(t, sb.blocksize),
        blocks_apart(gs, sb.blocksize),
        t.dom().len() <= (sb.blocksize - 24) / 8,
        t.dom().len() + 2 <= sb.journal_length,
        device::dev_writes(
            d,
            journal::log_writes(gs, sb, journal::commit_head(sb, t.dom().len() as int), t),
        ).1 is Ok,
        same_log(
            bytes,
            device::dev_writes(
                d,
                journal::log_writes(gs, sb, journal::commit_head(sb, t.dom().len() as int), t),
            ).0.bytes,
            gs,
            sb,
            journal::commit_head(sb, t.dom().len() as int),
            journal::commit_head(sb, t.dom().len() as int) + t.dom().len() + 2,
        ),
    ensures
        journal::txn_at(
            bytes,
            gs,
            sb,
            journal::commit_head(sb, t.dom().len() as int),
            sb.journal_seq,
        ) == Ok::<Option<(Seq<u64>, Seq<Seq<u8>>)>, FsError>(
            Some((txn::order(t), journal::contents(t))),
        ),
{
    let n = t.dom().len() as int;
    let head = journal::commit_head(sb, n);
    let all = journal::contents(t);
    let log = journal::log_writes(gs, sb, head, t);
    txn::lemma_order_lists(t);
    assert forall|i: int| 0 <= i < n + 2 implies #[trigger] journal::journal_read(
        bytes,
        gs,
        sb,
        head + i,
    ) == Ok::<Seq<u8>, FsError>(log[i].1) by {
        lemma_log_read_one(d, sb, gs, t, head, i);
    }
    assert forall|i: int| 1 <= i <= all.len() implies #[trigger] journal::journal_read(
        bytes,
        gs,
        sb,
        head + i,
    ) == Ok::<Seq<u8>, FsError>(all[i - 1]) by {
        lemma_log_items(gs, sb, head, t, i);
    }
    lemma_log_reads(bytes, gs, sb, head, all, n);
    assert(all.take(n) =~= all);
    lemma_log_items(gs, sb, head, t, 0);
    lemma_log_items(gs, sb, head, t, n + 1);
    assert(journal::journal_read(bytes, gs, sb, head + 0) == Ok::<Seq<u8>, FsError>(log[0].1));
    assert(journal::journal_read(bytes, gs, sb, head + (n + 1)) == Ok::<Seq<u8>, FsError>(
        log[n + 1].1,
    ));
    lemma_txn_from_blocks(bytes, gs, sb, head, t);
}

/// A transaction is found where its blocks stand in the log.
proof fn lemma_txn_from_blocks(
    bytes: Seq<u8>,
    gs: Seq<Group>,
    sb: Superblock,
    head: int,
    t: Map<u64, Seq<u8>>,
)
    requires
        t.dom().finite(),
        t.dom().len() > 0,
        24 + 8 * t.dom().len() <= sb.blocksize,
        head + t.dom().len() + 2 <= sb.journal_length,
        journal::journal_read(bytes, gs, sb, head) == Ok::<Seq<u8>, FsError>(
            journal::log_writes(gs, sb, head, t)[0].1,
        ),
        journal::journal_reads(bytes, gs, sb, head + 1, head + 1 + t.dom().len()) == Ok::<
            Seq<Seq<u8>>,
            FsError,
        >(journal::contents(t)),
        journal::journal_read(bytes, gs, sb, head + t.dom().len() + 1) == Ok::<Seq<u8>, FsError>(
            journal::log_writes(gs, sb, head, t)[t.dom().len() as int + 1].1,
        ),
    ensures
        journal::txn_at(bytes, gs, sb, head, sb.journal_seq) == Ok::<
            Option<(Seq<u64>, Seq<Seq<u8>>)>,
            FsError,
        >(Some((txn::order(t), journal::contents(t)))),
{
    let ts = txn::order(t);
    txn::lemma_order_lists(t);
    let bs = sb.blocksize as int;
    let desc = journal::desc_image(bs, sb.journal_seq, ts);
    let sum = fmt::crc32c_of(desc + journal::flat(journal::contents(t)));
    lemma_desc_decode(bs, sb.journal_seq, ts);
    lemma_commit_decode(bs, sb.journal_seq, sum);
    let log = journal::log_writes(gs, sb, head, t);
    assert(log[0].1 == desc);
    assert(log[ts.len() as int + 1].1 == journal::commit_image(bs, sb.journal_seq, sum));
}

/// A log block that was written reads back.
proof fn lemma_log_read_one(
    d: Dev,
    sb: Superblock,
    gs: Seq<Group>,
    t: Map<u64, Seq<u8>>,
    head: int,
    i: int,
)
    requires
        t.dom().finite(),
        vol::txn_ok(t, sb.blocksize),
        blocks_apart(gs, sb.blocksize),
        24 + 8 * t.dom().len() <= sb.blocksize,
        device::dev_writes(d, journal::log_writes(gs, sb, head, t)).1 is Ok,
        0 <= i < t.dom().len() + 2,
    ensures
        journal::journal_read(
            device::dev_writes(d, journal::log_writes(gs, sb, head, t)).0.bytes,
            gs,
            sb,
            head + i,
        ) == Ok::<Seq<u8>, FsError>(journal::log_writes(gs, sb, head, t)[i].1),
{
    let log = journal::log_writes(gs, sb, head, t);
    lemma_log_items(gs, sb, head, t, i);
    lemma_writes_ok(d, log, i);
    assert forall|j: int| i < j < log.len() implies ((#[trigger] log[j]).0 matches Ok(q) ==> apart(
        log[i].0->Ok_0 as int,
        log[i].1.len() as int,
        q as int,
        log[j].1.len() as int,
    )) by {
        lemma_log_items(gs, sb, head, t, j);
        let a = (sb.journal_start + head + i) as u64;
        let b = (sb.journal_start + head + j) as u64;
        if log[j].0 is Ok {
            assert(log[i].0 == vol::place(gs, sb.blocksize, a));
            assert(log[j].0 == vol::place(gs, sb.blocksize, b));
            assert(a != b);
        }
    }
    lemma_writes_hit(d, log, i);
    lemma_writes_len(d, log);
}

/// The writes of the log, one by one.
proof fn lemma_log_items(
    gs: Seq<Group>,
    sb: Superblock,
    head: int,
    t: Map<u64, Seq<u8>>,
    i: int,
)
    requires
        t.dom().finite(),
        vol::txn_ok(t, sb.blocksize),
        24 + 8 * t.dom().len() <= sb.blocksize,
        0 <= i < t.dom().len() + 2,
    ensures
        journal::log_writes(gs, sb, head, t).len() == t.dom().len() + 2,
        journal::log_writes(gs, sb, head, t)[i].0 == journal::journal_place(gs, sb, head + i),
        journal::log_writes(gs, sb, head, t)[i].1.len() == sb.blocksize,
        1 <= i <= t.dom().len() ==> journal::log_writes(gs, sb, head, t)[i].1 == journal::contents(
            t,
        )[i - 1],
{
    let ts = txn::order(t);
    txn::lemma_order_lists(t);
    let log = journal::log_writes(gs, sb, head, t);
    lemma_log_block_lens(
        sb.blocksize as int,
        sb.journal_seq,
        ts,
        fmt::crc32c_of(
            journal::desc_image(sb.blocksize as int, sb.journal_seq, ts) + journal::flat(
                journal::contents(t),
            ),
        ),
    );
    if 1 <= i <= t.dom().len() {
        assert(ts.contains(ts[i - 1]));
        assert(t.contains_key(ts[i - 1]));
        assert(log[i] == (journal::journal_place(gs, sb, head + 1 + (i - 1)), t[ts[i - 1]]));
    }
}

/// Reading the content blocks of a transaction in a row.
proof fn lemma_log_reads(
    bytes: Seq<u8>,
    gs: Seq<Group>,
    sb: Superblock,
    head: int,
    all: Seq<Seq<u8>>,
    k: int,
)
    requires
        0 <= k <= all.len(),
        forall|i: int|
            1 <= i <= all.len() ==> #[trigger] journal::journal_read(bytes, gs, sb, head + i)
                == Ok::<Seq<u8>, FsError>(all[i - 1]),
    ensures
        journal::journal_reads(bytes, gs, sb, head + 1, head + 1 + k) == Ok::<
            Seq<Seq<u8>>,
            FsError,
        >(all.take(k)),
    decreases k,
{
    if k == 0 {
        assert(all.take(0) =~= Seq::empty());
    } else {
        lemma_log_reads(bytes, gs, sb, head, all, k - 1);
        assert(journal::journal_read(bytes, gs, sb, head + k) == Ok::<Seq<u8>, FsError>(
            all[k - 1],
        ));
        assert(all.take(k) =~= all.take(k - 1).push(all[k - 1]));
    }
}

/// A crash while the log is being written leaves every block outside the
/// journal as it was, whichever of the log's writes reached the device, and in
/// whatever order.
pub proof fn law_logging_keeps_every_block(
    d: Dev,
    sb: Superblock,
    gs: Seq<Group>,
    t: Map<u64, Seq<u8>>,
    done: Seq<(Result<u64, FsError>, Seq<u8>)>,
    blk: u64,
)
    requires
        t.dom().finite(),
        vol::txn_ok(t, sb.blocksize),
        blocks_apart(gs, sb.blocksize),
        24 + 8 * t.dom().len() <= sb.blocksize,
        forall|i: int|
            0 <= i < done.len() ==> journal::log_writes(
                gs,
                sb,
                journal::commit_head(sb, t.dom().len() as int),
                t,
            ).contains(#[trigger] done[i]),
        !(sb.journal_start <= blk < sb.journal_start + sb.journal_length),
        vol::rd0(Vol { bytes: d.bytes, groups: gs, bs: sb.blocksize }, blk) is Ok,
    ensures
        vol::rd0(
            Vol { bytes: device::dev_writes(d, done).0.bytes, groups: gs, bs: sb.blocksize },
            blk,
        ) == vol::rd0(Vol { bytes: d.bytes, groups: gs, bs: sb.blocksize }, blk),
{
    let bs = sb.blocksize;
    let head = journal::commit_head(sb, t.dom().len() as int);
    let log = journal::log_writes(gs, sb, head, t);
    let p = vol::place(gs, bs, blk)->Ok_0 as int;
    assert forall|i: int| 0 <= i < done.len() implies ((#[trigger] done[i]).0 matches Ok(q)
        ==> apart(p, bs as int, q as int, done[i].1.len() as int)) by {
        let k = choose|k: int| 0 <= k < log.len() && log[k] == done[i];
        lemma_log_items(gs, sb, head, t, 0);
        lemma_log_items(gs, sb, head, t, k);
        if log[k].0 is Ok {
            let idx = (sb.journal_start + head + k) as u64;
            assert(log[k].0 == vol::place(gs, bs, idx));
            assert(vol::place(gs, bs, blk) is Ok);
        }
    }
    lemma_writes_frame(d, done, p, bs as int);
}

/// No whole transaction of the expected number stands at journal block `pos`:
/// the descriptor or the commit block is missing or torn, or the checksum over
/// the transaction is not the one that was recorded.
pub open spec fn unfinished(bytes: Seq<u8>, gs: Seq<Group>, sb: Superblock, pos: int) -> bool {
    pos + 2 > sb.journal_length || {
        &&& journal::journal_read(bytes, gs, sb, pos) is Ok
        &&& ({
            let desc = journal::journal_read(bytes, gs, sb, pos)->Ok_0;
            let n = fmt::u32_at(desc, 16) as int;
            let commit = journal::journal_read(bytes, gs, sb, pos + n + 1);
            let blocks = journal::journal_reads(bytes, gs, sb, pos + 1, pos + 1 + n);
            ||| !journal::log_block_ok(desc, JDESC_MAGIC, sb.journal_seq)
            ||| commit is Ok && !journal::log_block_ok(
                commit->Ok_0,
                JCOMMIT_MAGIC,
                sb.journal_seq,
            )
            ||| commit is Ok && blocks is Ok && fmt::crc32c_of(desc + journal::flat(blocks->Ok_0))
                != fmt::u32_at(commit->Ok_0, 16)
        })
    }
}

/// A transaction that was not logged whole is ignored: replay applies nothing
/// and changes nothing.
pub proof fn law_unfinished_log_is_ignored(d: Dev, sb: Superblock, gs: Seq<Group>)
    requires
        unfinished(d.bytes, gs, sb, sb.journal_head as int),
        unfinished(d.bytes, gs, sb, 0),
    ensures
        journal::replay_all(d, sb, gs) == (d, sb, Ok::<u32, FsError>(0)),
        journal::pending(d.bytes, gs, sb, sb.journal_head as int, sb.journal_seq, 0) == Ok::<
            u32,
            FsError,
        >(0),
{
}

/// A crash after the log blocks are durable loses nothing: replay finds the
/// transaction first and puts every block of it in place, whatever became of
/// the writes that were under way.
pub proof fn law_crash_after_log_is_repaired(
    d: Dev,
    sb: Superblock,
    gs: Seq<Group>,
    t: Map<u64, Seq<u8>>,
    crashed: Dev,
)
    requires
        t.dom().finite(),
        t.dom().len() > 0,
        vol::txn_ok(t, sb.blocksize),
        blocks_apart(gs, sb.blocksize),
        t.dom().len() <= (sb.blocksize - 24) / 8,
        t.dom().len() + 2 <= sb.journal_length,
        sb.journal_seq < u64::MAX,
        device::dev_writes(
            d,
            journal::log_writes(gs, sb, journal::commit_head(sb, t.dom().len() as int), t),
        ).1 is Ok,
        same_log(
            crashed.bytes,
            device::dev_writes(
                d,
                journal::log_writes(gs, sb, journal::commit_head(sb, t.dom().len() as int), t),
            ).0.bytes,
            gs,
            sb,
            journal::commit_head(sb, t.dom().len() as int),
            journal::commit_head(sb, t.dom().len() as int) + t.dom().len() + 2,
        ),
        // where the log wrapped, nothing of this number stands at the old head
        journal::commit_head(sb, t.dom().len() as int) != sb.journal_head ==> journal::txn_at(
            crashed.bytes,
            gs,
            sb,
            sb.journal_head as int,
            sb.journal_seq,
        ) == Ok::<Option<(Seq<u64>, Seq<Seq<u8>>)>, FsError>(None),
    ensures
        ({
            let n = t.dom().len() as int;
            let places = journal::in_place(
                gs,
                sb.blocksize,
                txn::order(t),
                journal::contents(t),
            );
            let (done, r) = device::dev_writes(crashed, places);
            r is Ok ==> {
                &&& journal::replayed(
                    crashed,
                    gs,
                    sb,
                    sb.journal_head as int,
                    sb.journal_seq,
                    0,
                ) == journal::replayed(
                    done,
                    gs,
                    sb,
                    journal::head_after(sb, journal::commit_head(sb, n), n),
                    (sb.journal_seq + 1) as u64,
                    1,
                )
                &&& forall|blk: u64|
                    t.contains_key(blk) ==> #[trigger] vol::rd0(
                        Vol { bytes: done.bytes, groups: gs, bs: sb.blocksize },
                        blk,
                    ) == Ok::<Seq<u8>, FsError>(t[blk])
            }
        }),
{
    let ts = txn::order(t);
    let all = journal::contents(t);
    txn::lemma_order_lists(t);
    law_logged_transaction_is_found(d, sb, gs, t, crashed.bytes);
    let places = journal::in_place(gs, sb.blocksize, ts, all);
    let (done, r) = device::dev_writes(crashed, places);
    if r is Ok {
        assert forall|blk: u64| t.contains_key(blk) implies #[trigger] vol::rd0(
            Vol { bytes: done.bytes, groups: gs, bs: sb.blocksize },
            blk,
        ) == Ok::<Seq<u8>, FsError>(t[blk]) by {
            assert(ts.contains(blk));
            let k = choose|k: int| 0 <= k < ts.len() && ts[k] == blk;
            assert forall|i: int| 0 <= i < ts.len() implies (#[trigger] all[i]).len()
                == sb.blocksize by {
                assert(ts.contains(ts[i]));
                assert(t.contains_key(ts[i]));
            }
            lemma_in_place_reads(crashed, gs, sb.blocksize, ts, all, k);
        }
    }
}

/// Where replay stops, the log holds no next transaction.
pub proof fn lemma_replay_stops(
    d: Dev,
    gs: Seq<Group>,
    sb: Superblock,
    head: int,
    seq: u64,
    n: u32,
)
    requires
        0 <= head <= u64::MAX,
    ensures
        ({
            let (d1, r) = journal::replayed(d, gs, sb, head, seq, n);
            &&& d1.bytes.len() == d.bytes.len()
            &&& d1.writable == d.writable
            &&& r matches Ok((h, s, m)) ==> {
                &&& journal::next_txn(d1.bytes, gs, sb, h, s) == Ok::<
                    Option<(int, (Seq<u64>, Seq<Seq<u8>>))>,
                    FsError,
                >(None)
                &&& 0 <= h <= u64::MAX
                &&& m >= n
                &&& m == n ==> d1 == d && h == head && s == seq
            }
        }),
    decreases u64::MAX - seq,
{
    match journal::next_txn(d.bytes, gs, sb, head, seq) {
        Ok(Some((pos, (ts, blocks)))) => {
            if seq < u64::MAX && n < u32::MAX {
                let places = journal::in_place(gs, sb.blocksize, ts, blocks);
                let (d1, r) = device::dev_writes(d, places);
                lemma_writes_len(d, places);
                if r is Ok {
                    lemma_replay_stops(
                        d1,
                        gs,
                        sb,
                        journal::head_after(sb, pos, ts.len() as int),
                        (seq + 1) as u64,
                        (n + 1) as u32,
                    );
                }
            }
        },
        _ => {},
    }
}

/// What is found in the log depends on the journal's blocks and place alone.
pub proof fn lemma_same_log_same_txn(
    a: Seq<u8>,
    b: Seq<u8>,
    gs: Seq<Group>,
    x: Superblock,
    y: Superblock,
    pos: int,
    seq: u64,
)
    requires
        x.blocksize == y.blocksize,
        x.journal_start == y.journal_start,
        x.journal_length == y.journal_length,
        same_log(a, b, gs, x, 0, x.journal_length as int),
        0 <= pos,
    ensures
        journal::txn_at(a, gs, x, pos, seq) == journal::txn_at(b, gs, y, pos, seq),
{
    assert forall|i: int| 0 <= i < x.journal_length implies #[trigger] journal::journal_read(
        a,
        gs,
        x,
        i,
    ) == journal::journal_read(b, gs, y, i) by {
        assert(journal::journal_place(gs, x, i) == journal::journal_place(gs, y, i));
        assert(journal::journal_read(b, gs, x, i) == journal::journal_read(b, gs, y, i));
    }
    if pos + 2 <= x.journal_length {
        assert(journal::journal_read(a, gs, x, pos) == journal::journal_read(b, gs, y, pos));
        if let Ok(desc) = journal::journal_read(a, gs, x, pos) {
            let count = fmt::u32_at(desc, 16) as int;
            if pos + count + 2 <= x.journal_length {
                assert(journal::journal_read(a, gs, x, pos + count + 1) == journal::journal_read(
                    b,
                    gs,
                    y,
                    pos + count + 1,
                ));
                lemma_same_reads(a, b, gs, x, y, pos + 1, pos + 1 + count);
            }
        }
    }
}

proof fn lemma_same_reads(
    a: Seq<u8>,
    b: Seq<u8>,
    gs: Seq<Group>,
    x: Superblock,
    y: Superblock,
    lo: int,
    hi: int,
)
    requires
        0 <= lo,
        hi <= x.journal_length,
        forall|i: int|
            0 <= i < x.journal_length ==> #[trigger] journal::journal_read(a, gs, x, i)
                == journal::journal_read(b, gs, y, i),
    ensures
        journal::journal_reads(a, gs, x, lo, hi) == journal::journal_reads(b, gs, y, lo, hi),
    decreases hi - lo,
{
    if lo < hi {
        lemma_same_reads(a, b, gs, x, y, lo, hi - 1);
        assert(journal::journal_read(a, gs, x, hi - 1) == journal::journal_read(b, gs, y, hi - 1));
    }
}

/// Replay is idempotent: done a second time it finds nothing to apply and
/// changes nothing.
pub proof fn law_replay_is_idempotent(d: Dev, sb: Superblock, gs: Seq<Group>)
    requires
        journal_off_superblock(gs, sb),
        journal::replay_all(d, sb, gs).2 is Ok,
    ensures
        ({
            let (d1, sb1, _) = journal::replay_all(d, sb, gs);
            journal::replay_all(d1, sb1, gs) == (d1, sb1, Ok::<u32, FsError>(0))
        }),
{
    let (d1, r) = journal::replayed(d, gs, sb, sb.journal_head as int, sb.journal_seq, 0);
    lemma_replay_stops(d, gs, sb, sb.journal_head as int, sb.journal_seq, 0);
    let (head, seq, n) = r->Ok_0;
    if n > 0 {
        let mid = Superblock { journal_head: head as u64, journal_seq: seq, ..sb };
        let ds = device::dev_sync(d1);
        let (d2, sb2, r2) = fs::sb_write(ds, mid, gs);
        assert forall|i: int| 0 <= i < sb.journal_length implies #[trigger] journal::journal_read(
            d2.bytes,
            gs,
            sb,
            i,
        ) == journal::journal_read(d1.bytes, gs, sb, i) by {
            if let Ok(p) = journal::journal_place(gs, sb, i) {
                lemma_writes_len(
                    ds,
                    fs::sb_writes(Superblock { gen: (mid.gen + 1) as u64, ..mid }, gs),
                );
                if p + sb.blocksize <= d1.bytes.len() {
                    lemma_sb_write_frame(ds, mid, gs, p as int, sb.blocksize as int);
                }
            }
        }
        lemma_same_log_same_txn(d2.bytes, d1.bytes, gs, sb, sb2, head, seq);
        lemma_same_log_same_txn(d2.bytes, d1.bytes, gs, sb, sb2, 0, seq);
        lemma_same_log_same_txn(d2.bytes, d2.bytes, gs, sb, sb2, head, seq);
        lemma_same_log_same_txn(d2.bytes, d2.bytes, gs, sb, sb2, 0, seq);
        lemma_same_log_same_txn(d1.bytes, d1.bytes, gs, sb, sb2, head, seq);
        lemma_same_log_same_txn(d1.bytes, d1.bytes, gs, sb, sb2, 0, seq);
    }
}

} // verus!
