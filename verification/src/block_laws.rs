//! Which blocks are taken for what they claim to be: every metadata block
//! carries its kind and a checksum, and none that is damaged is used.

use vstd::prelude::*;

use crate::agmap::Group;
use crate::bucket::Hent;
use crate::dir;
use crate::dir::Dh;
use crate::disk_laws;
use crate::error::FsError;
use crate::fmt;
use crate::journal;
use crate::mapping::Mp;
use crate::record;
use crate::roottable;
use crate::superblock::Superblock;
use crate::treenode;
use crate::vol;
use crate::vol::Vol;

verus! {

/// Whether a block starts with `5FS` and the letter of its kind.
pub open spec fn is_kind(b: Seq<u8>, letter: u8) -> bool {
    b[0] == 0x35 && b[1] == 0x46 && b[2] == 0x53 && b[3] == letter
}

/// Whether the checksum of a block is right.
pub open spec fn is_whole(b: Seq<u8>) -> bool {
    disk_laws::be(b, 4, 4) == disk_laws::checksum(b, b.len() as int)
}

proof fn lemma_whole(b: Seq<u8>)
    requires
        b.len() >= 8,
    ensures
        fmt::csum_ok(b) == is_whole(b),
{
    disk_laws::lemma_be(b, 4);
    disk_laws::lemma_checksum(b, b.len() as int);
    assert(b.take(b.len() as int) =~= b);
}

/// A block serves as an allocator table exactly if it is one and whole.
pub proof fn law_table_block_is_checked(v: Vol, t: Map<u64, Seq<u8>>, ag: u32, local: u32, b: Seq<u8>)
    requires
        b.len() >= 8,
        vol::rd(v, t, fmt::addr_of(ag, local)) == Ok::<Seq<u8>, FsError>(b),
    ensures
        roottable::table_of(v, t, ag, local) == if !is_kind(b, 0x41) {
            Err(FsError::NotTable { ag, local })
        } else if !is_whole(b) {
            Err(FsError::TableChecksum { ag, local })
        } else {
            Ok(b)
        },
{
    lemma_whole(b);
}

/// A record is 128 bytes of its table block, behind a head of 128 bytes; one past
/// the block is none.
pub proof fn law_record_stands_in_its_block(
    v: Vol,
    t: Map<u64, Seq<u8>>,
    ag: u32,
    local: u32,
    i: u16,
    b: Seq<u8>,
)
    requires
        roottable::table_of(v, t, ag, local) == Ok::<Seq<u8>, FsError>(b),
        b.len() == v.bs,
    ensures
        roottable::record_of(v, t, ag, (local, i)) == if 128 + 128 * i + 128 <= v.bs {
            Ok(b.subrange(128 + 128 * i, 128 + 128 * i + 128))
        } else {
            Err(FsError::Corrupt)
        },
{
}

/// A block serves as a tree node exactly if it is one, whole, and of the level
/// that its parent says.
pub proof fn law_node_block_is_checked(
    v: Vol,
    t: Map<u64, Seq<u8>>,
    addr: u64,
    level: int,
    b: Seq<u8>,
)
    requires
        b.len() >= 17,
        vol::rd(v, t, addr) == Ok::<Seq<u8>, FsError>(b),
    ensures
        treenode::node_level_of(v, t, addr, level) == if !is_kind(b, 0x54) {
            Err(FsError::NotNode(addr))
        } else if !is_whole(b) {
            Err(FsError::NodeChecksum(addr))
        } else if b[16] != level {
            Err(FsError::Corrupt)
        } else {
            Ok(b)
        },
{
    lemma_whole(b);
}

/// A block serves as the header of a hashed directory only if it is one and
/// whole. Its depth, the number of its buckets, the table behind its head and the
/// freelist from its end on are the numbers at their places.
pub proof fn law_dir_header_block_is_checked(b: Seq<u8>)
    requires
        b.len() >= 24,
    ensures
        !is_kind(b, 0x44) ==> dir::dh_parse(b) == Err::<Dh, FsError>(FsError::DirHeaderMagic),
        is_kind(b, 0x44) && !is_whole(b) ==> dir::dh_parse(b) == Err::<Dh, FsError>(
            FsError::DirHeaderChecksum,
        ),
        dir::dh_parse(b) matches Ok(h) ==> {
            &&& is_kind(b, 0x44)
            &&& is_whole(b)
            &&& h.depth == b[16]
            &&& h.nbuckets == disk_laws::be(b, 20, 4)
            &&& h.table.len() == record::two_to(b[16] as int)
            &&& forall|i: int|
                0 <= i < h.table.len() ==> #[trigger] h.table[i] == disk_laws::be(b, 24 + 4 * i, 4)
            &&& h.free.len() == disk_laws::be(b, 18, 2)
            &&& forall|k: int|
                0 <= k < h.free.len() ==> #[trigger] h.free[k] == disk_laws::be(
                    b,
                    b.len() - 4 * (k + 1),
                    4,
                )
        },
{
    lemma_whole(b);
    disk_laws::lemma_be(b, 18);
    disk_laws::lemma_be(b, 20);
    if let Ok(h) = dir::dh_parse(b) {
        crate::bucket::lemma_two_to_pos(b[16] as int);
        assert forall|i: int| 0 <= i < h.table.len() implies #[trigger] h.table[i] == disk_laws::be(
            b,
            24 + 4 * i,
            4,
        ) by {
            disk_laws::lemma_be(b, 24 + 4 * i);
        }
        assert forall|k: int| 0 <= k < h.free.len() implies #[trigger] h.free[k] == disk_laws::be(
            b,
            b.len() - 4 * (k + 1),
            4,
        ) by {
            disk_laws::lemma_be(b, b.len() - 4 * (k + 1));
        }
    }
}

/// A block serves as a bucket only if it is one and whole: the block behind the
/// header's, counted by the bucket's number. Its depth stands in it.
pub proof fn law_bucket_block_is_checked(
    v: Vol,
    t: Map<u64, Seq<u8>>,
    m: Mp,
    bno: u32,
    blk: u64,
    b: Seq<u8>,
)
    requires
        b.len() >= 24,
        dir::dir_block(v, t, m, 1 + bno) == Ok::<(u64, Seq<u8>), FsError>((blk, b)),
    ensures
        !is_kind(b, 0x62) ==> dir::bucket_of(v, t, m, bno) == Err::<
            (u64, u8, Seq<Hent>),
            FsError,
        >(FsError::BucketMagic(bno)),
        is_kind(b, 0x62) && !is_whole(b) ==> dir::bucket_of(v, t, m, bno) == Err::<
            (u64, u8, Seq<Hent>),
            FsError,
        >(FsError::BucketChecksum(bno)),
        dir::bucket_of(v, t, m, bno) matches Ok((a, ld, es)) ==> {
            &&& is_kind(b, 0x62)
            &&& is_whole(b)
            &&& a == blk
            &&& ld == b[16]
            &&& es.len() == disk_laws::be(b, 18, 2)
        },
{
    reveal(dir::bucket_of);
    lemma_whole(b);
    disk_laws::lemma_be(b, 18);
    lemma_hents_len(b, 24, fmt::u16_at(b, 18) as int);
}

proof fn lemma_hents_len(b: Seq<u8>, off: int, n: int)
    requires
        n >= 0,
    ensures
        crate::bucket::hents_at(b, off, n) matches Some(es) ==> es.len() == n,
    decreases n,
{
    if n > 0 {
        lemma_hents_len(
            b,
            off + crate::bucket::slot_size(fmt::u16_at(b, off + 18) as int),
            n - 1,
        );
    }
}

// --- the journal --------------------------------------------------------------

/// Whether a block is a descriptor or commit block of the journal with that
/// number.
pub open spec fn is_log(b: Seq<u8>, letter: u8, seq: u64) -> bool {
    is_kind(b, letter) && is_whole(b) && disk_laws::be(b, 8, 8) == seq
}

/// A transaction stands in the journal only where it is whole: a descriptor of
/// the number asked for, that lists one address at least and no more than it has
/// room for; behind it the blocks, as many; and a commit block of the same number
/// that has the checksum of all of them.
#[verifier::rlimit(40)]
#[verifier::spinoff_prover]
pub proof fn law_logged_transaction_is_whole(
    bytes: Seq<u8>,
    gs: Seq<Group>,
    sb: Superblock,
    pos: int,
    seq: u64,
    ts: Seq<u64>,
    blocks: Seq<Seq<u8>>,
)
    requires
        sb.blocksize >= 512,
        pos >= 0,
        journal::txn_at(bytes, gs, sb, pos, seq) == Ok::<
            Option<(Seq<u64>, Seq<Seq<u8>>)>,
            FsError,
        >(Some((ts, blocks))),
    ensures
        ({
            let n = ts.len() as int;
            let desc = journal::journal_read(bytes, gs, sb, pos);
            let last = journal::journal_read(bytes, gs, sb, pos + n + 1);
            &&& desc is Ok
            &&& last is Ok
            &&& n >= 1
            &&& 24 + 8 * n <= sb.blocksize
            &&& pos + n + 2 <= sb.journal_length
            &&& is_log(desc->Ok_0, 0x4a, seq)
            &&& disk_laws::be(desc->Ok_0, 16, 4) == n
            &&& forall|i: int|
                0 <= i < n ==> #[trigger] ts[i] == disk_laws::be(desc->Ok_0, 24 + 8 * i, 8)
            &&& blocks.len() == n
            &&& forall|i: int|
                0 <= i < n ==> journal::journal_read(bytes, gs, sb, pos + 1 + i) == Ok::<
                    Seq<u8>,
                    FsError,
                >(#[trigger] blocks[i])
            &&& is_log(last->Ok_0, 0x43, seq)
            &&& disk_laws::be(last->Ok_0, 16, 4) == fmt::crc32c_of(
                desc->Ok_0 + journal::flat(blocks),
            )
        }),
{
    let desc = journal::journal_read(bytes, gs, sb, pos)->Ok_0;
    let n = fmt::u32_at(desc, 16) as int;
    let last = journal::journal_read(bytes, gs, sb, pos + n + 1)->Ok_0;
    assert(ts.len() == n);
    lemma_whole(desc);
    lemma_whole(last);
    disk_laws::lemma_be(desc, 8);
    disk_laws::lemma_be(desc, 16);
    disk_laws::lemma_be(last, 8);
    disk_laws::lemma_be(last, 16);
    assert forall|i: int| 0 <= i < n implies #[trigger] ts[i] == disk_laws::be(desc, 24 + 8 * i, 8) by {
        disk_laws::lemma_be(desc, 24 + 8 * i);
    }
    lemma_reads(bytes, gs, sb, pos + 1, pos + 1 + n);
    assert forall|i: int| 0 <= i < n implies journal::journal_read(bytes, gs, sb, pos + 1 + i)
        == Ok::<Seq<u8>, FsError>(#[trigger] blocks[i]) by {
        lemma_read(bytes, gs, sb, pos + 1, pos + 1 + n, pos + 1 + i);
    }
}

proof fn lemma_reads(bytes: Seq<u8>, gs: Seq<Group>, sb: Superblock, lo: int, hi: int)
    requires
        lo <= hi,
    ensures
        journal::journal_reads(bytes, gs, sb, lo, hi) matches Ok(bs) ==> bs.len() == hi - lo,
    decreases hi - lo,
{
    if lo < hi {
        lemma_reads(bytes, gs, sb, lo, hi - 1);
    }
}

proof fn lemma_read(bytes: Seq<u8>, gs: Seq<Group>, sb: Superblock, lo: int, hi: int, k: int)
    requires
        lo <= k < hi,
        journal::journal_reads(bytes, gs, sb, lo, hi) is Ok,
    ensures
        journal::journal_read(bytes, gs, sb, k) == Ok::<Seq<u8>, FsError>(
            journal::journal_reads(bytes, gs, sb, lo, hi)->Ok_0[k - lo],
        ),
    decreases hi - lo,
{
    lemma_reads(bytes, gs, sb, lo, hi - 1);
    if k < hi - 1 {
        lemma_read(bytes, gs, sb, lo, hi - 1, k);
    }
}

} // verus!
