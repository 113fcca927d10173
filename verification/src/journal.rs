//! Metadata journal: whole-block physical transactions.
//!
//! A transaction is journaled (descriptor, data blocks, commit), synced, then
//! applied in place, and the superblock's head and sequence number advance.
//! Replay on writable open applies again any transaction that was committed
//! but not applied; replay is idempotent.

pub use crate::txn::Txn;
use crate::device::Dev;
use crate::error::FsError;
use crate::fmt::{
    csum_matches, get_u32, get_u64, magic_is, put_magic, put_u32, put_u64, seal, zero_vec,
    JCOMMIT_MAGIC, JDESC_MAGIC,
};
use crate::fs::Gofs;
use crate::superblock::Superblock;
use vstd::prelude::*;

use crate::agmap;
use crate::device;
use crate::fmt;
use crate::fs;
use crate::txn;
use crate::vol;

verus! {

/// magic(4) csum(4) seq(8) count or transaction checksum(4) pad(4)
pub const JHDR: usize = 24;

// --- block images -------------------------------------------------------------

/// The addresses one after the other.
pub open spec fn addrs_bytes(ts: Seq<u64>) -> Seq<u8> {
    Seq::new(8 * ts.len(), |i: int| fmt::be64(ts[i / 8])[i % 8])
}

/// A descriptor block.
pub open spec fn desc_image(bs: int, seq: u64, ts: Seq<u64>) -> Seq<u8> {
    let b = fmt::splice(fmt::zeros(bs as nat), 0, JDESC_MAGIC@);
    let b = fmt::splice(b, 8, fmt::be64(seq));
    let b = fmt::splice(b, 16, fmt::be32(ts.len() as u32));
    fmt::sealed(fmt::splice(b, JHDR as int, addrs_bytes(ts)))
}

/// A commit block.
pub open spec fn commit_image(bs: int, seq: u64, txn_csum: u32) -> Seq<u8> {
    let b = fmt::splice(fmt::zeros(bs as nat), 0, JCOMMIT_MAGIC@);
    let b = fmt::splice(b, 8, fmt::be64(seq));
    fmt::sealed(fmt::splice(b, 16, fmt::be32(txn_csum)))
}

/// Blocks one after the other.
pub open spec fn flat(bs: Seq<Seq<u8>>) -> Seq<u8>
    decreases bs.len(),
{
    if bs.len() == 0 {
        Seq::empty()
    } else {
        flat(bs.drop_last()) + bs.last()
    }
}

/// The contents of a transaction's blocks, in order of address.
pub open spec fn contents(t: Map<u64, Seq<u8>>) -> Seq<Seq<u8>> {
    txn::order(t).map_values(|k: u64| t[k])
}

#[verifier::rlimit(20)]
fn desc_block(bs: usize, seq: u64, targets: &[u64]) -> (r: Vec<u8>)
    requires
        JHDR + 8 * targets@.len() <= bs <= u32::MAX,
    ensures
        r@ == desc_image(bs as int, seq, targets@),
        r@.len() == bs,
{
    let mut b = zero_vec(bs);
    assert(b@ =~= fmt::zeros(bs as nat));
    put_magic(&mut b, &JDESC_MAGIC);
    put_u64(&mut b, 8, seq);
    put_u32(&mut b, 16, targets.len() as u32);
    let ghost base = b@;
    let mut i: usize = 0;
    assert(b@ =~= fmt::splice(base, 24, addrs_bytes(targets@.take(0))));
    while i < targets.len()
        invariant
            i <= targets@.len(),
            JHDR + 8 * targets@.len() <= bs,
            base.len() == bs,
            b@ == fmt::splice(base, 24, addrs_bytes(targets@.take(i as int))),
        decreases targets@.len() - i,
    {
        let ghost prev = b@;
        put_u64(&mut b, JHDR + i * 8, targets[i]);
        proof {
            let a = addrs_bytes(targets@.take(i + 1));
            assert forall|k: int| 0 <= k < bs implies b@[k] == fmt::splice(base, 24, a)[k] by {
                if 24 <= k < 24 + 8 * i {
                    assert(prev[k] == addrs_bytes(targets@.take(i as int))[k - 24]);
                    assert((k - 24) / 8 < i);
                } else if 24 + 8 * i <= k < 24 + 8 * i + 8 {
                    assert((k - 24) / 8 == i && (k - 24) % 8 == k - 24 - 8 * i);
                }
            }
            assert(b@ =~= fmt::splice(base, 24, a));
        }
        i = i + 1;
    }
    assert(targets@.take(targets@.len() as int) =~= targets@);
    seal(&mut b);
    b
}

fn commit_block(bs: usize, seq: u64, txn_csum: u32) -> (r: Vec<u8>)
    requires
        24 <= bs,
    ensures
        r@ == commit_image(bs as int, seq, txn_csum),
        r@.len() == bs,
{
    let mut b = zero_vec(bs);
    assert(b@ =~= fmt::zeros(bs as nat));
    put_magic(&mut b, &JCOMMIT_MAGIC);
    put_u64(&mut b, 8, seq);
    put_u32(&mut b, 16, txn_csum);
    seal(&mut b);
    b
}

/// Maximum targets per transaction for a given block size.
pub fn max_targets(bs: usize) -> (r: usize)
    requires
        bs >= JHDR,
    ensures
        r == (bs - JHDR) / 8,
{
    (bs - JHDR) / 8
}

// --- reading the log ----------------------------------------------------------

/// The physical offset of journal block `idx`.
pub open spec fn journal_place(gs: Seq<agmap::Group>, sb: Superblock, idx: int) -> Result<
    u64,
    FsError,
> {
    if idx < 0 || idx >= sb.journal_length {
        Err(FsError::JournalIndex(idx as u64))
    } else if sb.journal_start + idx > u64::MAX {
        Err(FsError::Corrupt)
    } else {
        vol::place(gs, sb.blocksize, (sb.journal_start + idx) as u64)
    }
}

/// The contents of journal block `idx`.
pub open spec fn journal_read(bytes: Seq<u8>, gs: Seq<agmap::Group>, sb: Superblock, idx: int) -> Result<
    Seq<u8>,
    FsError,
> {
    match journal_place(gs, sb, idx) {
        Err(e) => Err(e),
        Ok(off) => device::dev_read(bytes, off, sb.blocksize as int),
    }
}

/// The contents of journal blocks `lo` to `hi`, or the first error.
pub open spec fn journal_reads(
    bytes: Seq<u8>,
    gs: Seq<agmap::Group>,
    sb: Superblock,
    lo: int,
    hi: int,
) -> Result<Seq<Seq<u8>>, FsError>
    decreases hi - lo,
{
    if lo >= hi {
        Ok(Seq::empty())
    } else {
        match journal_reads(bytes, gs, sb, lo, hi - 1) {
            Err(e) => Err(e),
            Ok(bs) => match journal_read(bytes, gs, sb, hi - 1) {
                Err(e) => Err(e),
                Ok(b) => Ok(bs.push(b)),
            },
        }
    }
}

/// A descriptor or commit block of that sequence number.
pub open spec fn log_block_ok(b: Seq<u8>, magic: [u8; 4], seq: u64) -> bool {
    fmt::has_magic(b, magic) && fmt::csum_ok(b) && fmt::u64_at(b, 8) == seq
}

/// The addresses that a descriptor lists.
pub open spec fn desc_targets(desc: Seq<u8>) -> Seq<u64> {
    Seq::new(fmt::u32_at(desc, 16) as nat, |i: int| fmt::u64_at(desc, JHDR + 8 * i))
}

/// The transaction of sequence number `seq` at journal block `pos`: addresses
/// and contents; `None` if there is no whole one.
pub open spec fn txn_at(
    bytes: Seq<u8>,
    gs: Seq<agmap::Group>,
    sb: Superblock,
    pos: int,
    seq: u64,
) -> Result<Option<(Seq<u64>, Seq<Seq<u8>>)>, FsError> {
    if pos + 2 > sb.journal_length {
        Ok(None)
    } else {
        match journal_read(bytes, gs, sb, pos) {
            Err(e) => Err(e),
            Ok(desc) => {
                let count = fmt::u32_at(desc, 16) as int;
                if !log_block_ok(desc, JDESC_MAGIC, seq) || count == 0 || count > (sb.blocksize
                    - JHDR) / 8 || pos + count + 2 > sb.journal_length {
                    Ok(None)
                } else {
                    match journal_read(bytes, gs, sb, pos + count + 1) {
                        Err(e) => Err(e),
                        Ok(commit) => if !log_block_ok(commit, JCOMMIT_MAGIC, seq) {
                            Ok(None)
                        } else {
                            match journal_reads(bytes, gs, sb, pos + 1, pos + 1 + count) {
                                Err(e) => Err(e),
                                Ok(blocks) => if fmt::crc32c_of(desc + flat(blocks))
                                    != fmt::u32_at(commit, 16) {
                                    Ok(None)
                                } else {
                                    Ok(Some((desc_targets(desc), blocks)))
                                },
                            }
                        },
                    }
                }
            },
        }
    }
}

/// The next transaction from `head` on, and where it stands: at `head`, else
/// at block 0, where the writer may have wrapped to.
pub open spec fn next_txn(
    bytes: Seq<u8>,
    gs: Seq<agmap::Group>,
    sb: Superblock,
    head: int,
    seq: u64,
) -> Result<Option<(int, (Seq<u64>, Seq<Seq<u8>>))>, FsError> {
    match txn_at(bytes, gs, sb, head, seq) {
        Err(e) => Err(e),
        Ok(Some(t)) => Ok(Some((head, t))),
        Ok(None) => if head == 0 {
            Ok(None)
        } else {
            match txn_at(bytes, gs, sb, 0, seq) {
                Err(e) => Err(e),
                Ok(Some(t)) => Ok(Some((0, t))),
                Ok(None) => Ok(None),
            }
        },
    }
}

/// Where the transaction after one of `n` blocks at `pos` starts.
pub open spec fn head_after(sb: Superblock, pos: int, n: int) -> int {
    if pos + n + 2 >= sb.journal_length {
        0
    } else {
        pos + n + 2
    }
}

/// Each block at its place.
pub open spec fn in_place(
    gs: Seq<agmap::Group>,
    bs: u32,
    ts: Seq<u64>,
    blocks: Seq<Seq<u8>>,
) -> Seq<(Result<u64, FsError>, Seq<u8>)> {
    Seq::new(ts.len(), |i: int| (vol::place(gs, bs, ts[i]), blocks[i]))
}

/// The journal blocks of a transaction at `head`: descriptor, contents,
/// commit.
pub open spec fn log_writes(
    gs: Seq<agmap::Group>,
    sb: Superblock,
    head: int,
    t: Map<u64, Seq<u8>>,
) -> Seq<(Result<u64, FsError>, Seq<u8>)> {
    let ts = txn::order(t);
    let desc = desc_image(sb.blocksize as int, sb.journal_seq, ts);
    let sum = fmt::crc32c_of(desc + flat(contents(t)));
    seq![(journal_place(gs, sb, head), desc)] + Seq::new(
        ts.len(),
        |i: int| (journal_place(gs, sb, head + 1 + i), t[ts[i]]),
    ) + seq![
        (
            journal_place(gs, sb, head + ts.len() + 1),
            commit_image(sb.blocksize as int, sb.journal_seq, sum),
        ),
    ]
}

/// Where a transaction of `n` blocks goes: at the head, or at block 0 where
/// it would not fit before the end.
pub open spec fn commit_head(sb: Superblock, n: int) -> int {
    if sb.journal_head + n + 2 > sb.journal_length {
        0
    } else {
        sb.journal_head as int
    }
}

/// What a commit does to the device and the superblock.
pub open spec fn committed(
    d: Dev,
    sb: Superblock,
    gs: Seq<agmap::Group>,
    t: Map<u64, Seq<u8>>,
) -> (Dev, Superblock, Result<(), FsError>) {
    let ts = txn::order(t);
    let n = t.dom().len() as int;
    if t.dom() == Set::<u64>::empty() {
        (d, sb, Ok(()))
    } else if n > (sb.blocksize - JHDR) / 8 {
        (d, sb, Err(FsError::TxnTooLarge(n as u64)))
    } else if n + 2 > sb.journal_length {
        (d, sb, Err(FsError::TxnOverJournal))
    } else if sb.journal_seq == u64::MAX {
        (d, sb, Err(FsError::Corrupt))
    } else {
        let head = commit_head(sb, n);
        let (d1, r1) = device::dev_writes(d, log_writes(gs, sb, head, t));
        if r1 is Err {
            (d1, sb, r1)
        } else {
            let (d2, r2) = device::dev_writes(
                device::dev_sync(d1),
                in_place(gs, sb.blocksize, ts, contents(t)),
            );
            if r2 is Err {
                (d2, sb, r2)
            } else {
                let sb1 = Superblock {
                    journal_head: head_after(sb, head, n) as u64,
                    journal_seq: (sb.journal_seq + 1) as u64,
                    ..sb
                };
                fs::sb_write(device::dev_sync(d2), sb1, gs)
            }
        }
    }
}

/// Writes one after the other: first `a`, and if that goes well `b`.
pub proof fn lemma_dev_writes_append(
    d: Dev,
    a: Seq<(Result<u64, FsError>, Seq<u8>)>,
    b: Seq<(Result<u64, FsError>, Seq<u8>)>,
)
    ensures
        device::dev_writes(d, a + b) == {
            let (d1, r) = device::dev_writes(d, a);
            if r is Ok {
                device::dev_writes(d1, b)
            } else {
                (d1, r)
            }
        },
    decreases a.len(),
{
    if a.len() == 0 {
        assert(a + b =~= b);
    } else {
        assert((a + b).skip(1) =~= a.skip(1) + b);
        if let Ok(off) = a[0].0 {
            let (d1, r) = device::dev_write(d, off, a[0].1);
            if r is Ok {
                lemma_dev_writes_append(d1, a.skip(1), b);
            }
        }
    }
}

/// One write more.
pub proof fn lemma_dev_writes_push(
    d: Dev,
    a: Seq<(Result<u64, FsError>, Seq<u8>)>,
    x: (Result<u64, FsError>, Seq<u8>),
)
    ensures
        device::dev_writes(d, a.push(x)) == {
            let (d1, r) = device::dev_writes(d, a);
            if r is Ok {
                match x.0 {
                    Err(e) => (d1, Err::<(), FsError>(e)),
                    Ok(off) => device::dev_write(d1, off, x.1),
                }
            } else {
                (d1, r)
            }
        },
{
    lemma_dev_writes_append(d, a, seq![x]);
    assert(a + seq![x] =~= a.push(x));
    reveal_with_fuel(device::dev_writes, 2);
    assert(seq![x].skip(1) =~= Seq::empty());
}

/// Once a write fails, nothing behind it is done.
pub proof fn lemma_dev_writes_prefix(d: Dev, items: Seq<(Result<u64, FsError>, Seq<u8>)>, k: int)
    requires
        0 <= k <= items.len(),
        device::dev_writes(d, items.take(k)).1 is Err,
    ensures
        device::dev_writes(d, items) == device::dev_writes(d, items.take(k)),
{
    lemma_dev_writes_append(d, items.take(k), items.skip(k));
    assert(items.take(k) + items.skip(k) =~= items);
}

/// What replay from `head` and `seq` on does, `n` transactions having been
/// applied: the device, then head, sequence number and count, or the error.
pub open spec fn replayed(
    d: Dev,
    gs: Seq<agmap::Group>,
    sb: Superblock,
    head: int,
    seq: u64,
    n: u32,
) -> (Dev, Result<(int, u64, u32), FsError>)
    decreases u64::MAX - seq,
{
    match next_txn(d.bytes, gs, sb, head, seq) {
        Err(e) => (d, Err(e)),
        Ok(None) => (d, Ok((head, seq, n))),
        Ok(Some((pos, (ts, blocks)))) => if seq == u64::MAX || n == u32::MAX {
            (d, Err(FsError::Corrupt))
        } else {
            let (d1, r) = device::dev_writes(d, in_place(gs, sb.blocksize, ts, blocks));
            match r {
                Err(e) => (d1, Err(e)),
                Ok(_) => replayed(
                    d1,
                    gs,
                    sb,
                    head_after(sb, pos, ts.len() as int),
                    (seq + 1) as u64,
                    (n + 1) as u32,
                ),
            }
        },
    }
}

/// Replay and, where anything was applied, the checkpoint behind it.
pub open spec fn replay_all(d: Dev, sb: Superblock, gs: Seq<agmap::Group>) -> (
    Dev,
    Superblock,
    Result<u32, FsError>,
) {
    let (d1, r) = replayed(d, gs, sb, sb.journal_head as int, sb.journal_seq, 0);
    match r {
        Err(e) => (d1, sb, Err(e)),
        Ok((head, seq, n)) => if n == 0 {
            (d1, sb, Ok(0))
        } else {
            let sb1 = Superblock { journal_head: head as u64, journal_seq: seq, ..sb };
            let (d2, sb2, r2) = fs::sb_write(device::dev_sync(d1), sb1, gs);
            (
                d2,
                sb2,
                match r2 {
                    Ok(_) => Ok(n),
                    Err(e) => Err(e),
                },
            )
        },
    }
}

/// How many transactions stand in the log from `head` and `seq` on, after `n`.
pub open spec fn pending(
    bytes: Seq<u8>,
    gs: Seq<agmap::Group>,
    sb: Superblock,
    head: int,
    seq: u64,
    n: u32,
) -> Result<u32, FsError>
    decreases u64::MAX - seq,
{
    match next_txn(bytes, gs, sb, head, seq) {
        Err(e) => Err(e),
        Ok(None) => Ok(n),
        Ok(Some((pos, (ts, _)))) => if seq == u64::MAX || n == u32::MAX {
            Err(FsError::Corrupt)
        } else {
            pending(
                bytes,
                gs,
                sb,
                head_after(sb, pos, ts.len() as int),
                (seq + 1) as u64,
                (n + 1) as u32,
            )
        },
    }
}

/// An error among the journal blocks read stays.
pub proof fn lemma_journal_reads_err(
    bytes: Seq<u8>,
    gs: Seq<agmap::Group>,
    sb: Superblock,
    lo: int,
    mid: int,
    hi: int,
    e: FsError,
)
    requires
        mid <= hi,
        journal_reads(bytes, gs, sb, lo, mid) == Err::<Seq<Seq<u8>>, FsError>(e),
    ensures
        journal_reads(bytes, gs, sb, lo, hi) == Err::<Seq<Seq<u8>>, FsError>(e),
    decreases hi - mid,
{
    if mid < hi {
        if lo >= hi {
            assert(false);
        }
        lemma_journal_reads_err(bytes, gs, sb, lo, mid, hi - 1, e);
    }
}

/// The views of blocks.
pub open spec fn views(bs: Seq<Vec<u8>>) -> Seq<Seq<u8>> {
    bs.map_values(|b: Vec<u8>| b@)
}

impl Gofs {
    pub fn txn(&self) -> (r: Txn)
        ensures
            r@ == Map::<u64, Seq<u8>>::empty(),
    {
        Txn::default()
    }

    /// Read a block through the transaction (sees uncommitted writes).
    pub fn txn_read(&self, t: &Txn, blk: u64) -> (r: Result<Vec<u8>, FsError>)
        requires
            self.wf(),
            t.wf(self.sb.blocksize),
        ensures
            match r {
                Ok(b) => vol::rd(self.vol(), t@, blk) == Ok::<Seq<u8>, FsError>(b@) && b@.len()
                    == self.sb.blocksize,
                Err(e) => vol::rd(self.vol(), t@, blk) == Err::<Seq<u8>, FsError>(e),
            },
    {
        match t.get(blk) {
            Some(b) => Ok(b),
            None => self.read_block(blk),
        }
    }

    pub fn txn_write(&self, t: &mut Txn, blk: u64, data: Vec<u8>)
        requires
            data@.len() == self.sb.blocksize,
            old(t).wf(self.sb.blocksize),
        ensures
            final(t)@ == old(t)@.insert(blk, data@),
            final(t).wf(self.sb.blocksize),
    {
        t.put(blk, data);
    }

    fn journal_phys(&self, idx: u64) -> (r: Result<u64, FsError>)
        ensures
            r == journal_place(self.map@.entries, self.sb, idx as int),
    {
        if idx >= self.sb.journal_length {
            return Err(FsError::JournalIndex(idx));
        }
        match self.sb.journal_start.checked_add(idx) {
            Some(blk) => self.resolve(blk),
            None => Err(FsError::Corrupt),
        }
    }

    fn journal_block(&self, idx: u64) -> (r: Result<Vec<u8>, FsError>)
        requires
            self.wf(),
        ensures
            match r {
                Ok(b) => journal_read(self.dev@.bytes, self.map@.entries, self.sb, idx as int)
                    == Ok::<Seq<u8>, FsError>(b@) && b@.len() == self.sb.blocksize,
                Err(e) => journal_read(self.dev@.bytes, self.map@.entries, self.sb, idx as int)
                    == Err::<Seq<u8>, FsError>(e),
            },
    {
        let off = self.journal_phys(idx)?;
        self.dev.read_vec(off, self.sb.blocksize as u64)
    }

    /// Journal and apply a transaction.
    #[verifier::rlimit(40)]
    pub fn commit(&mut self, t: Txn) -> (r: Result<(), FsError>)
        requires
            old(self).wf(),
            t.wf(old(self).sb.blocksize),
        ensures
            final(self).wf(),
            final(self).map == old(self).map,
            (final(self).dev@, final(self).sb, r) == committed(
                old(self).dev@,
                old(self).sb,
                old(self).map@.entries,
                t@,
            ),
    {
        if t.is_empty() {
            return Ok(());
        }
        let bs = self.sb.blocksize as usize;
        let targets = t.targets();
        let n = targets.len();
        if n > max_targets(bs) {
            return Err(FsError::TxnTooLarge(n as u64));
        }
        let jl = self.sb.journal_length;
        let needed = n as u64 + 2;
        if needed > jl {
            return Err(FsError::TxnOverJournal);
        }
        if self.sb.journal_seq == u64::MAX {
            return Err(FsError::Corrupt);
        }
        let mut head = self.sb.journal_head;
        if head > jl - needed {
            head = 0;  // wrap: transactions never split across the end
        }
        let seq = self.sb.journal_seq;
        let desc = desc_block(bs, seq, &targets);
        let ghost ts = targets@;
        let ghost all = contents(t@);
        let ghost gs = self.map@.entries;
        let ghost d0 = self.dev@;
        let ghost sb0 = self.sb;
        let mut tc = crc32c::crc32c(&desc);
        let mut i: usize = 0;
        assert(desc@ + flat(all.take(0)) =~= desc@);
        while i < n
            invariant
                i <= n == ts.len(),
                ts == targets@,
                txn::lists_keys(ts, t@),
                ts == txn::order(t@),
                all == contents(t@),
                tc == fmt::crc32c_of(desc@ + flat(all.take(i as int))),
            decreases n - i,
        {
            assert(ts.contains(ts[i as int]));
            let data = t.block(targets[i]);
            tc = crc32c::crc32c_append(tc, data);
            proof {
                assert(all.take(i + 1).drop_last() =~= all.take(i as int));
                assert(desc@ + flat(all.take(i as int)) + data@ =~= desc@ + flat(
                    all.take(i + 1),
                ));
            }
            i = i + 1;
        }
        assert(all.take(n as int) =~= all);

        let ghost items = log_writes(gs, sb0, head as int, t@);
        proof {
            lemma_dev_writes_push(d0, Seq::empty(), items[0]);
            assert(items.take(1) =~= Seq::empty().push(items[0]));
            if device::dev_writes(d0, items.take(1)).1 is Err {
                lemma_dev_writes_prefix(d0, items, 1);
            }
        }
        let p = self.journal_phys(head)?;
        self.dev.pwrite(&desc, p)?;
        let mut i: usize = 0;
        while i < n
            invariant
                i <= n == ts.len(),
                ts == targets@,
                txn::lists_keys(ts, t@),
                ts == txn::order(t@),
                self.wf(),
                self.sb == sb0,
                self.map == old(self).map,
                gs == self.map@.entries,
                items == log_writes(gs, sb0, head as int, t@),
                head + n + 2 <= sb0.journal_length,
                device::dev_writes(d0, items.take(i + 1)) == (self.dev@, Ok::<(), FsError>(())),
                d0 == old(self).dev@,
                sb0 == old(self).sb,
                head == commit_head(sb0, n as int),
                n == t@.dom().len(),
                !(t@.dom() == Set::<u64>::empty()),
                n <= (sb0.blocksize - JHDR) / 8,
                n + 2 <= sb0.journal_length,
                sb0.journal_seq != u64::MAX,
            decreases n - i,
        {
            assert(ts.contains(ts[i as int]));
            proof {
                assert(items.take(i + 2) =~= items.take(i + 1).push(items[i + 1]));
                lemma_dev_writes_push(d0, items.take(i + 1), items[i + 1]);
                if device::dev_writes(d0, items.take(i + 2)).1 is Err {
                    lemma_dev_writes_prefix(d0, items, i + 2);
                }
            }
            let p = self.journal_phys(head + 1 + i as u64)?;
            self.dev.pwrite(t.block(targets[i]), p)?;
            i = i + 1;
        }
        let commit = commit_block(bs, seq, tc);
        proof {
            assert(items.take(n + 2) =~= items);
            assert(items =~= items.take(n + 1).push(items[n + 1]));
            lemma_dev_writes_push(d0, items.take(n + 1), items[n + 1]);
        }
        let p = self.journal_phys(head + needed - 1)?;
        self.dev.pwrite(&commit, p)?;
        self.dev.sync();

        // apply in place
        let ghost d1 = self.dev@;
        let ghost places = in_place(gs, sb0.blocksize, ts, all);
        let mut i: usize = 0;
        assert(places.take(0) =~= Seq::empty());
        while i < n
            invariant
                i <= n == ts.len(),
                ts == targets@,
                txn::lists_keys(ts, t@),
                ts == txn::order(t@),
                self.wf(),
                self.sb == sb0,
                self.map == old(self).map,
                gs == self.map@.entries,
                all == contents(t@),
                places == in_place(gs, sb0.blocksize, ts, all),
                device::dev_writes(d1, places.take(i as int)) == (self.dev@, Ok::<(), FsError>(())),
                device::dev_writes(d0, items) == (device::dev_writes(d0, items).0, Ok::<(), FsError>(())),
                d1 == device::dev_sync(device::dev_writes(d0, items).0),
                items == log_writes(gs, sb0, head as int, t@),
                d0 == old(self).dev@,
                sb0 == old(self).sb,
                head == commit_head(sb0, n as int),
                n == t@.dom().len(),
                !(t@.dom() == Set::<u64>::empty()),
                n <= (sb0.blocksize - JHDR) / 8,
                n + 2 <= sb0.journal_length,
                sb0.journal_seq != u64::MAX,
            decreases n - i,
        {
            assert(ts.contains(ts[i as int]));
            proof {
                assert(places.take(i + 1) =~= places.take(i as int).push(places[i as int]));
                lemma_dev_writes_push(d1, places.take(i as int), places[i as int]);
                if device::dev_writes(d1, places.take(i + 1)).1 is Err {
                    lemma_dev_writes_prefix(d1, places, i + 1);
                }
            }
            self.write_block(targets[i], t.block(targets[i]))?;
            i = i + 1;
        }
        assert(places.take(n as int) =~= places);
        self.dev.sync();

        // checkpoint
        let next = head + needed;
        self.sb.journal_head = if next >= jl { 0 } else { next };
        self.sb.journal_seq = seq + 1;
        self.write_superblock()
    }

    /// Validate the transaction of sequence number `seq` at journal block `pos`.
    #[verifier::loop_isolation(false)]
    fn try_read_txn(&self, pos: u64, seq: u64) -> (r: Result<
        Option<(Vec<u64>, Vec<Vec<u8>>)>,
        FsError,
    >)
        requires
            self.wf(),
        ensures
            match r {
                Ok(Some((ts, blocks))) => {
                    &&& txn_at(self.dev@.bytes, self.map@.entries, self.sb, pos as int, seq) == Ok::<
                        Option<(Seq<u64>, Seq<Seq<u8>>)>,
                        FsError,
                    >(Some((ts@, views(blocks@))))
                    &&& 0 < ts@.len() == blocks@.len()
                    &&& pos + ts@.len() + 2 <= self.sb.journal_length
                    &&& forall|i: int| 0 <= i < blocks@.len() ==> (#[trigger] blocks@[i])@.len()
                        == self.sb.blocksize
                },
                Ok(None) => txn_at(self.dev@.bytes, self.map@.entries, self.sb, pos as int, seq)
                    == Ok::<Option<(Seq<u64>, Seq<Seq<u8>>)>, FsError>(None),
                Err(e) => txn_at(self.dev@.bytes, self.map@.entries, self.sb, pos as int, seq)
                    == Err::<Option<(Seq<u64>, Seq<Seq<u8>>)>, FsError>(e),
            },
    {
        let jl = self.sb.journal_length;
        let bs = self.sb.blocksize as usize;
        let ghost bytes = self.dev@.bytes;
        let ghost gs = self.map@.entries;
        if pos >= jl || jl - pos < 2 {
            return Ok(None);
        }
        let desc = self.journal_block(pos)?;
        if !magic_is(&desc, &JDESC_MAGIC) || !csum_matches(&desc) || get_u64(&desc, 8) != seq {
            return Ok(None);
        }
        let count = get_u32(&desc, 16) as u64;
        if count == 0 || count > max_targets(bs) as u64 || jl - pos - 2 < count {
            return Ok(None);
        }
        let commit = self.journal_block(pos + count + 1)?;
        if !magic_is(&commit, &JCOMMIT_MAGIC) || !csum_matches(&commit) || get_u64(&commit, 8)
            != seq {
            return Ok(None);
        }
        let mut targets: Vec<u64> = Vec::new();
        let mut blocks: Vec<Vec<u8>> = Vec::new();
        let mut tc = crc32c::crc32c(&desc);
        let mut i: u64 = 0;
        assert(views(blocks@) =~= Seq::empty());
        assert(desc@ + flat(views(blocks@)) =~= desc@);
        while i < count
            invariant
                i <= count,
                targets@.len() == i,
                blocks@.len() == i,
                forall|k: int| 0 <= k < i ==> #[trigger] targets@[k] == fmt::u64_at(
                    desc@,
                    JHDR + 8 * k,
                ),
                forall|k: int| 0 <= k < blocks@.len() ==> (#[trigger] blocks@[k])@.len()
                    == self.sb.blocksize,
                journal_reads(bytes, gs, self.sb, pos + 1, pos + 1 + i) == Ok::<
                    Seq<Seq<u8>>,
                    FsError,
                >(views(blocks@)),
                tc == fmt::crc32c_of(desc@ + flat(views(blocks@))),
            decreases count - i,
        {
            let t = get_u64(&desc, JHDR + i as usize * 8);
            targets.push(t);
            let next = self.journal_block(pos + 1 + i);
            proof {
                if let Err(e) = next {
                    lemma_journal_reads_err(bytes, gs, self.sb, pos + 1, pos + 2 + i, pos + 1 + count, e);
                }
            }
            let data = next?;
            tc = crc32c::crc32c_append(tc, &data);
            let ghost before = views(blocks@);
            blocks.push(data);
            proof {
                assert(views(blocks@) =~= before.push(data@));
                assert(views(blocks@).drop_last() =~= before);
                assert(desc@ + flat(before) + data@ =~= desc@ + flat(views(blocks@)));
            }
            i = i + 1;
        }
        assert(targets@ =~= desc_targets(desc@));
        if tc != get_u32(&commit, 16) {
            return Ok(None);  // torn transaction
        }
        Ok(Some((targets, blocks)))
    }

    /// The next transaction from `head` on, and where it stands.
    fn next_pending(&self, head: u64, seq: u64) -> (r: Result<
        Option<(u64, Vec<u64>, Vec<Vec<u8>>)>,
        FsError,
    >)
        requires
            self.wf(),
        ensures
            match r {
                Ok(Some((pos, ts, blocks))) => {
                    &&& next_txn(self.dev@.bytes, self.map@.entries, self.sb, head as int, seq)
                        == Ok::<Option<(int, (Seq<u64>, Seq<Seq<u8>>))>, FsError>(
                        Some((pos as int, (ts@, views(blocks@)))),
                    )
                    &&& 0 < ts@.len() == blocks@.len()
                    &&& pos + ts@.len() + 2 <= self.sb.journal_length
                },
                Ok(None) => next_txn(
                    self.dev@.bytes,
                    self.map@.entries,
                    self.sb,
                    head as int,
                    seq,
                ) == Ok::<Option<(int, (Seq<u64>, Seq<Seq<u8>>))>, FsError>(None),
                Err(e) => next_txn(self.dev@.bytes, self.map@.entries, self.sb, head as int, seq)
                    == Err::<Option<(int, (Seq<u64>, Seq<Seq<u8>>))>, FsError>(e),
            },
    {
        match self.try_read_txn(head, seq)? {
            Some((ts, blocks)) => Ok(Some((head, ts, blocks))),
            None => {
                if head == 0 {
                    return Ok(None);
                }
                // the writer may have wrapped without recording it
                match self.try_read_txn(0, seq)? {
                    Some((ts, blocks)) => Ok(Some((0, ts, blocks))),
                    None => Ok(None),
                }
            },
        }
    }

    /// Replay transactions that were committed but not applied. Returns how
    /// many were applied.
    #[verifier::loop_isolation(false)]
    #[verifier::rlimit(30)]
    pub fn replay(&mut self) -> (r: Result<u32, FsError>)
        requires
            old(self).wf(),
        ensures
            final(self).wf(),
            final(self).map == old(self).map,
            (final(self).dev@, final(self).sb, r) == replay_all(
                old(self).dev@,
                old(self).sb,
                old(self).map@.entries,
            ),
    {
        let mut head = self.sb.journal_head;
        let mut seq = self.sb.journal_seq;
        let mut applied: u32 = 0;
        let ghost gs = self.map@.entries;
        let ghost sb0 = self.sb;
        let ghost want = replayed(self.dev@, gs, sb0, head as int, seq, 0);
        loop
            invariant
                self.wf(),
                self.sb == sb0,
                self.map == old(self).map,
                gs == self.map@.entries,
                want == replayed(self.dev@, gs, sb0, head as int, seq, applied),
            decreases u64::MAX - seq,
        {
            let (pos, targets, blocks) = match self.next_pending(head, seq)? {
                Some(x) => x,
                None => break,
            };
            if seq == u64::MAX || applied == u32::MAX {
                return Err(FsError::Corrupt);
            }
            let n = targets.len();
            let ghost d1 = self.dev@;
            let ghost places = in_place(gs, sb0.blocksize, targets@, views(blocks@));
            assert(places.take(0) =~= Seq::empty());
            let mut i: usize = 0;
            while i < n
                invariant
                    i <= n == targets@.len() == blocks@.len(),
                    self.wf(),
                    self.sb == sb0,
                    self.map == old(self).map,
                    gs == self.map@.entries,
                    device::dev_writes(d1, places.take(i as int)) == (
                        self.dev@,
                        Ok::<(), FsError>(()),
                    ),
                decreases n - i,
            {
                proof {
                    assert(places.take(i + 1) =~= places.take(i as int).push(places[i as int]));
                    lemma_dev_writes_push(d1, places.take(i as int), places[i as int]);
                    if device::dev_writes(d1, places.take(i + 1)).1 is Err {
                        lemma_dev_writes_prefix(d1, places, i + 1);
                    }
                }
                self.write_block(targets[i], &blocks[i])?;
                i = i + 1;
            }
            assert(places.take(n as int) =~= places);
            let next = pos + n as u64 + 2;
            head = if next >= self.sb.journal_length { 0 } else { next };
            seq = seq + 1;
            applied = applied + 1;
        }
        if applied > 0 {
            self.dev.sync();
            self.sb.journal_head = head;
            self.sb.journal_seq = seq;
            self.write_superblock()?;
        }
        Ok(applied)
    }

    /// Count transactions that were committed but not applied, without
    /// applying them.
    pub fn journal_pending(&self) -> (r: Result<u32, FsError>)
        requires
            self.wf(),
        ensures
            r == pending(
                self.dev@.bytes,
                self.map@.entries,
                self.sb,
                self.sb.journal_head as int,
                self.sb.journal_seq,
                0,
            ),
    {
        let mut head = self.sb.journal_head;
        let mut seq = self.sb.journal_seq;
        let mut n: u32 = 0;
        loop
            invariant
                self.wf(),
                pending(
                    self.dev@.bytes,
                    self.map@.entries,
                    self.sb,
                    self.sb.journal_head as int,
                    self.sb.journal_seq,
                    0,
                ) == pending(self.dev@.bytes, self.map@.entries, self.sb, head as int, seq, n),
            decreases u64::MAX - seq,
        {
            let (pos, targets, _blocks) = match self.next_pending(head, seq)? {
                Some(x) => x,
                None => return Ok(n),
            };
            if seq == u64::MAX || n == u32::MAX {
                return Err(FsError::Corrupt);
            }
            let next = pos + targets.len() as u64 + 2;
            head = if next >= self.sb.journal_length { 0 } else { next };
            seq = seq + 1;
            n = n + 1;
        }
    }
}

} // verus!
