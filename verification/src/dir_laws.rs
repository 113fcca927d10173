//! What directories promise: headers and buckets read back as they were
//! written, an entry that was inserted is found, one that was removed is not,
//! and every other entry stays.

use crate::allocator::Pool;
use crate::bucket::{Hent, BK_HDR};
use crate::dir::{Dh, Dn, Pair};
use crate::dir_model::{Bucket, Buckets};
use crate::dirent::Dirent;
use crate::error::FsError;
use crate::fmt::{BUCKET_MAGIC, DIRH_MAGIC, FMT_EMBED, FMT_EMPTY, FMT_EXTENT, FMT_TREE, INODE_PAYLOAD};
use crate::mapping::Mp;
use crate::vol::Vol;
use vstd::prelude::*;

use crate::bucket;
use crate::dir;
use crate::dir_model;
use crate::dirent;
use crate::fmt;
use crate::mapping;
use crate::record;
use crate::utf16;
use crate::vol;

verus! {

// --- buckets ------------------------------------------------------------------

/// Entries one after the other, seen from the first.
proof fn lemma_hents_front(es: Seq<Hent>)
    requires
        es.len() > 0,
    ensures
        bucket::hents_bytes(es) == bucket::hent_bytes(es[0]) + bucket::hents_bytes(es.skip(1)),
        bucket::hents_size(es) == bucket::hent_size(es[0]) + bucket::hents_size(es.skip(1)),
    decreases es.len(),
{
    if es.len() == 1 {
        assert(es.drop_last() =~= Seq::empty());
        assert(es.skip(1) =~= Seq::empty());
        assert(bucket::hents_bytes(es) =~= bucket::hent_bytes(es[0]) + bucket::hents_bytes(
            es.skip(1),
        ));
    } else {
        lemma_hents_front(es.drop_last());
        assert(es.drop_last().skip(1) =~= es.skip(1).drop_last());
        assert(es.skip(1).last() == es.last());
        assert(bucket::hents_bytes(es) =~= bucket::hent_bytes(es[0]) + bucket::hents_bytes(
            es.skip(1),
        ));
    }
}

/// An entry reads back where its bytes stand.
#[verifier::rlimit(40)]
proof fn lemma_hent_at(b: Seq<u8>, off: int, e: Hent)
    requires
        0 <= off,
        off + bucket::hent_size(e) <= b.len(),
        utf16::encode_utf16(e.name).len() <= u16::MAX,
        b.subrange(off, off + bucket::hent_size(e)) == bucket::hent_bytes(e),
    ensures
        bucket::hent_at(b, off) == Some(e),
        fmt::u16_at(b, off + 18) == utf16::encode_utf16(e.name).len(),
{
    let u = utf16::encode_utf16(e.name);
    let n = u.len() as int;
    let x = bucket::hent_bytes(e);
    let size = bucket::hent_size(e);
    assert(20 + 2 * n <= size);
    assert(x.len() == size);
    assert forall|i: int| 0 <= i < size implies b[off + i] == #[trigger] x[i] by {
        assert(b.subrange(off, off + size)[i] == b[off + i]);
    }
    assert(b.subrange(off, off + 8) =~= fmt::be64(e.ino)) by {
        assert(x.subrange(0, 8) =~= fmt::be64(e.ino));
        assert(b.subrange(off, off + 8) =~= x.subrange(0, 8));
    }
    fmt::lemma_range_u64(b, off, e.ino);
    assert(b.subrange(off + 8, off + 16) =~= fmt::be64(e.hash)) by {
        assert(x.subrange(8, 16) =~= fmt::be64(e.hash));
        assert(b.subrange(off + 8, off + 16) =~= x.subrange(8, 16));
    }
    fmt::lemma_range_u64(b, off + 8, e.hash);
    assert(b[off + 16] == x[16]);
    assert(x[16] == e.ftype);
    assert(b.subrange(off + 18, off + 20) =~= fmt::be16(u.len() as u16)) by {
        assert(x.subrange(18, 20) =~= fmt::be16(u.len() as u16));
        assert(b.subrange(off + 18, off + 20) =~= x.subrange(18, 20));
    }
    fmt::lemma_range_u16(b, off + 18, u.len() as u16);
    assert(dirent::units_at(b, off + 20, n) =~= u) by {
        assert forall|k: int| 0 <= k < n implies #[trigger] dirent::units_at(b, off + 20, n)[k]
            == u[k] by {
            let bytes = dirent::units_bytes(u);
            assert(x[20 + 2 * k] == bytes[2 * k]);
            assert(x[20 + 2 * k + 1] == bytes[2 * k + 1]);
            assert(b[off + (20 + 2 * k)] == x[20 + 2 * k]);
            assert(b[off + (20 + 2 * k + 1)] == x[20 + 2 * k + 1]);
            fmt::lemma_u16_of(b, off + 20 + 2 * k, u[k]);
        }
    }
    utf16::law_utf16_round_trip(e.name);
}

/// Entries read back where their bytes stand.
proof fn lemma_hents_at(b: Seq<u8>, off: int, es: Seq<Hent>)
    requires
        0 <= off,
        off + bucket::hents_size(es) <= b.len(),
        forall|i: int|
            0 <= i < es.len() ==> utf16::encode_utf16((#[trigger] es[i]).name).len() <= u16::MAX,
        b.subrange(off, off + bucket::hents_size(es)) == bucket::hents_bytes(es),
    ensures
        bucket::hents_at(b, off, es.len() as int) == Some(es),
    decreases es.len(),
{
    if es.len() == 0 {
        assert(es =~= Seq::empty());
    } else {
        let e = es[0];
        let rest = es.skip(1);
        let n = bucket::hent_size(e);
        lemma_hents_front(es);
        bucket::lemma_hents_bytes_len(rest);
        bucket::lemma_hents_bytes_len(es);
        let all = b.subrange(off, off + bucket::hents_size(es));
        assert(bucket::hent_bytes(e).len() == n);
        assert(b.subrange(off, off + n) =~= all.subrange(0, n));
        assert(all.subrange(0, n) =~= bucket::hent_bytes(e));
        assert(b.subrange(off + n, off + n + bucket::hents_size(rest)) =~= all.subrange(
            n,
            n + bucket::hents_size(rest),
        ));
        assert(all.subrange(n, n + bucket::hents_size(rest)) =~= bucket::hents_bytes(rest));
        lemma_hent_at(b, off, e);
        assert forall|i: int| 0 <= i < rest.len() implies utf16::encode_utf16(
            (#[trigger] rest[i]).name,
        ).len() <= u16::MAX by {
            assert(rest[i] == es[i + 1]);
        }
        lemma_hents_at(b, off + n, rest);
        assert(seq![e] + rest =~= es);
    }
}

/// Block `b` is a bucket of depth `depth` with entries `es`.
pub open spec fn is_bucket(b: Seq<u8>, depth: u8, es: Seq<Hent>) -> bool {
    &&& fmt::has_magic(b, BUCKET_MAGIC)
    &&& fmt::csum_ok(b)
    &&& b[16] == depth
    &&& bucket::hents_at(b, BK_HDR as int, fmt::u16_at(b, 18) as int) == Some(es)
}

/// The bytes that are made of a bucket give its depth and, in order, its entries
/// again.
#[verifier::rlimit(40)]
pub proof fn law_bucket_bytes_give_the_entries(bs: int, depth: u8, es: Seq<Hent>)
    requires
        bucket::bucket_ok(bs, es),
    ensures
        ({
            let b = bucket::bucket_body(bs, depth, es);
            &&& b.len() == bs
            &&& b[16] == depth
            &&& bucket::hents_at(b, BK_HDR as int, fmt::u16_at(b, 18) as int) == Some(es)
        }),
{
    let b0 = fmt::splice(fmt::zeros(bs as nat), 0, BUCKET_MAGIC@).update(16, depth);
    let b = bucket::bucket_body(bs, depth, es);
    bucket::lemma_hents_bytes_len(es);
    assert(b0.len() == bs && b.len() == bs);
    assert(b[16] == b0[16]);
    let n = es.len() as u16;
    assert(b[18] == fmt::be16(n)[0] && b[19] == fmt::be16(n)[1]);
    fmt::lemma_u16_of(b, 18, n);
    let size = bucket::hents_size(es);
    assert(b.subrange(24, 24 + size) =~= bucket::hents_bytes(es));
    lemma_hents_at(b, 24, es);
}

/// A bucket that is stored reads back: its depth and its entries, in order.
/// Other blocks are as they were.
#[verifier::rlimit(40)]
pub proof fn law_bucket_reads_back(v: Vol, t: Map<u64, Seq<u8>>, blk: u64, depth: u8, es: Seq<Hent>)
    requires
        v.bs >= 24,
        dir::bucket_to(v, t, blk, depth, es).1 is Ok,
    ensures
        ({
            let t1 = dir::bucket_to(v, t, blk, depth, es).0;
            &&& vol::rd(v, t1, blk) matches Ok(b) && b.len() == v.bs && is_bucket(b, depth, es)
            &&& forall|x: u64|
                x != blk ==> #[trigger] vol::rd(v, t1, x) == vol::rd(v, t, x)
        }),
{
    reveal(dir::bucket_to);
    let bs = v.bs as int;
    let b0 = fmt::splice(fmt::zeros(bs as nat), 0, BUCKET_MAGIC@).update(16, depth);
    let body = bucket::bucket_body(bs, depth, es);
    let s = fmt::splice(body, 8, fmt::be64(dir::next_gen(v, t, blk)));
    let b = fmt::sealed(s);
    bucket::lemma_hents_bytes_len(es);
    fmt::lemma_sealed(s);
    assert(b0.len() == bs && body.len() == bs && s.len() == bs);
    assert(b[0] == BUCKET_MAGIC@[0] && b[1] == BUCKET_MAGIC@[1] && b[2] == BUCKET_MAGIC@[2] && b[3]
        == BUCKET_MAGIC@[3]) by {
        assert(s[0] == body[0] && s[1] == body[1] && s[2] == body[2] && s[3] == body[3]);
        assert(body[0] == b0[0] && body[1] == b0[1] && body[2] == b0[2] && body[3] == b0[3]);
    }
    assert(b[16] == depth) by {
        assert(b[16] == s[16] && s[16] == body[16] && body[16] == b0[16]);
    }
    let n = es.len() as u16;
    assert(b[18] == fmt::be16(n)[0] && b[19] == fmt::be16(n)[1]) by {
        assert(b[18] == s[18] && b[19] == s[19]);
        assert(s[18] == body[18] && s[19] == body[19]);
    }
    fmt::lemma_u16_of(b, 18, n);
    let size = bucket::hents_size(es);
    assert(b.subrange(24, 24 + size) =~= bucket::hents_bytes(es)) by {
        assert forall|i: int| 0 <= i < size implies #[trigger] b.subrange(24, 24 + size)[i]
            == bucket::hents_bytes(es)[i] by {
            assert(b[24 + i] == s[24 + i]);
            assert(s[24 + i] == body[24 + i]);
        }
    }
    lemma_hents_at(b, 24, es);
}

// --- headers ------------------------------------------------------------------

/// A number in a row of numbers.
proof fn lemma_u32s_at(b: Seq<u8>, off: int, s: Seq<u32>, i: int)
    requires
        0 <= off,
        0 <= i < s.len(),
        off + 4 * s.len() <= b.len(),
        forall|k: int|
            0 <= k < 4 * s.len() ==> b[off + k] == #[trigger] dir::u32s_bytes(s)[k],
    ensures
        fmt::u32_at(b, off + 4 * i) == s[i],
{
    let x = dir::u32s_bytes(s);
    assert(b[off + 4 * i] == x[4 * i]);
    assert(b[off + (4 * i + 1)] == x[4 * i + 1]);
    assert(b[off + (4 * i + 2)] == x[4 * i + 2]);
    assert(b[off + (4 * i + 3)] == x[4 * i + 3]);
    fmt::lemma_u32_of(b, off + 4 * i, s[i]);
}

/// A directory header that is stored reads back: depth, bucket count, table
/// and freelist. Other blocks are as they were.
#[verifier::rlimit(40)]
pub proof fn law_dir_header_reads_back(v: Vol, t: Map<u64, Seq<u8>>, blk: u64, h: Dh)
    requires
        v.bs >= 24,
        h.depth <= 31,
        h.table.len() == record::two_to(h.depth as int),
        dir::dh_to(v, t, blk, h).1 is Ok,
    ensures
        ({
            let t1 = dir::dh_to(v, t, blk, h).0;
            &&& vol::rd(v, t1, blk) matches Ok(b) && b.len() == v.bs && dir::dh_parse(b) == Ok::<
                Dh,
                FsError,
            >(h)
            &&& forall|x: u64|
                x != blk ==> #[trigger] vol::rd(v, t1, x) == vol::rd(v, t, x)
        }),
{
    reveal(dir::dh_to);
    let bs = v.bs as int;
    let gen = dir::next_gen(v, t, blk);
    let nf = h.free.len() as int;
    let nt = h.table.len() as int;
    let b0 = fmt::splice(fmt::zeros(bs as nat), 0, DIRH_MAGIC@);
    let b1 = fmt::splice(b0, 8, fmt::be64(gen)).update(16, h.depth);
    let b2 = fmt::splice(b1, 18, fmt::be16(h.free.len() as u16));
    let b3 = fmt::splice(b2, 20, fmt::be32(h.nbuckets));
    let b4 = fmt::splice(b3, 24, dir::u32s_bytes(h.table));
    let back = h.free.reverse();
    let b5 = fmt::splice(b4, bs - 4 * nf, dir::u32s_bytes(back));
    let b = fmt::sealed(b5);
    fmt::lemma_sealed(b5);
    assert(b1.len() == bs && b5.len() == bs);
    assert forall|i: int| 0 <= i < 4 || 8 <= i < bs implies #[trigger] b[i] == b5[i] by {}
    assert forall|i: int| 0 <= i < bs - 4 * nf implies #[trigger] b5[i] == b4[i] by {}
    assert(b[0] == DIRH_MAGIC@[0] && b[1] == DIRH_MAGIC@[1] && b[2] == DIRH_MAGIC@[2] && b[3]
        == DIRH_MAGIC@[3]) by {
        assert(b4[0] == b0[0] && b4[1] == b0[1] && b4[2] == b0[2] && b4[3] == b0[3]);
    }
    assert(b[16] == h.depth) by {
        assert(b4[16] == b1[16]);
    }
    assert(fmt::u16_at(b, 18) == nf) by {
        assert(b4[18] == b2[18] && b4[19] == b2[19]);
        fmt::lemma_u16_of(b, 18, nf as u16);
    }
    assert(fmt::u32_at(b, 20) == h.nbuckets) by {
        assert(b4[20] == b3[20] && b4[21] == b3[21] && b4[22] == b3[22] && b4[23] == b3[23]);
        fmt::lemma_u32_of(b, 20, h.nbuckets);
    }
    let got = dir::dh_parse(b)->Ok_0;
    assert(got.table =~= h.table) by {
        assert forall|k: int| 0 <= k < 4 * nt implies b[24 + k] == #[trigger] dir::u32s_bytes(
            h.table,
        )[k] by {
            assert(b5[24 + k] == b4[24 + k]);
        }
        assert forall|i: int| 0 <= i < nt implies #[trigger] got.table[i] == h.table[i] by {
            lemma_u32s_at(b, 24, h.table, i);
        }
    }
    assert(got.free =~= h.free) by {
        assert forall|k: int| 0 <= k < 4 * nf implies b[bs - 4 * nf + k]
            == #[trigger] dir::u32s_bytes(back)[k] by {
            assert(b5[bs - 4 * nf + k] == dir::u32s_bytes(back)[k]);
        }
        assert forall|k: int| 0 <= k < nf implies #[trigger] got.free[k] == h.free[k] by {
            lemma_u32s_at(b, bs - 4 * nf, back, nf - 1 - k);
            assert(bs - 4 * nf + 4 * (nf - 1 - k) == bs - 4 * (k + 1));
            assert(back[nf - 1 - k] == h.free[k]);
        }
    }
}

// --- a directory on its blocks ------------------------------------------------

/// Address `x` is that of a block of the file that `m` maps.
pub open spec fn is_block(v: Vol, t: Map<u64, Seq<u8>>, m: Mp, x: u64) -> bool {
    exists|fb: int|
        0 <= fb && #[trigger] dir::dir_addr(v, t, m, fb) == Ok::<u64, FsError>(x)
}

/// Nothing but blocks of the file differs.
pub open spec fn rest_kept(v: Vol, t: Map<u64, Seq<u8>>, t1: Map<u64, Seq<u8>>, m: Mp) -> bool {
    forall|x: u64|
        !is_block(v, t, m, x) ==> #[trigger] vol::rd(v, t1, x) == vol::rd(v, t, x)
}

/// The mapping of the file does not depend on the file's own blocks.
pub open spec fn mapped_apart(v: Vol, t: Map<u64, Seq<u8>>, m: Mp) -> bool {
    forall|t1: Map<u64, Seq<u8>>, fb: int|
        0 <= fb && rest_kept(v, t, t1, m) ==> #[trigger] mapping::map_of(v, t1, m, fb) == mapping::map_of(
            v,
            t,
            m,
            fb,
        )
}

/// A change of the file's blocks leaves its mapping as it is.
pub proof fn lemma_mapped_apart(v: Vol, t: Map<u64, Seq<u8>>, t1: Map<u64, Seq<u8>>, m: Mp)
    requires
        mapped_apart(v, t, m),
        rest_kept(v, t, t1, m),
    ensures
        mapped_apart(v, t1, m),
        forall|fb: int|
            0 <= fb ==> #[trigger] dir::dir_addr(v, t1, m, fb) == dir::dir_addr(v, t, m, fb),
{
    assert forall|fb: int| 0 <= fb implies #[trigger] dir::dir_addr(v, t1, m, fb)
        == dir::dir_addr(v, t, m, fb) by {
        assert(mapping::map_of(v, t1, m, fb) == mapping::map_of(v, t, m, fb));
    }
    assert forall|x: u64| is_block(v, t1, m, x) == is_block(v, t, m, x) by {
        if is_block(v, t1, m, x) {
            let fb = choose|fb: int|
                0 <= fb && #[trigger] dir::dir_addr(v, t1, m, fb) == Ok::<u64, FsError>(x);
            assert(dir::dir_addr(v, t, m, fb) == Ok::<u64, FsError>(x));
        }
        if is_block(v, t, m, x) {
            let fb = choose|fb: int|
                0 <= fb && #[trigger] dir::dir_addr(v, t, m, fb) == Ok::<u64, FsError>(x);
            assert(dir::dir_addr(v, t1, m, fb) == Ok::<u64, FsError>(x));
        }
    }
    assert forall|t2: Map<u64, Seq<u8>>, fb: int| 0 <= fb && rest_kept(v, t1, t2, m) implies #[trigger]
        mapping::map_of(v, t2, m, fb) == mapping::map_of(v, t1, m, fb) by {
        assert(rest_kept(v, t, t2, m)) by {
            assert forall|x: u64| !is_block(v, t, m, x) implies #[trigger] vol::rd(v, t2, x)
                == vol::rd(v, t, x) by {
                assert(is_block(v, t1, m, x) == is_block(v, t, m, x));
                assert(vol::rd(v, t1, x) == vol::rd(v, t, x));
            }
        }
        assert(mapping::map_of(v, t2, m, fb) == mapping::map_of(v, t, m, fb));
        assert(mapping::map_of(v, t1, m, fb) == mapping::map_of(v, t, m, fb));
    }
}

/// The header stands at `hblk`.
pub open spec fn header_at(v: Vol, t: Map<u64, Seq<u8>>, m: Mp, hblk: u64, h: Dh) -> bool {
    &&& dir::dir_addr(v, t, m, 0) == Ok::<u64, FsError>(hblk)
    &&& vol::rd(v, t, hblk) matches Ok(b) && dir::dh_parse(b) == Ok::<Dh, FsError>(h)
}

/// Bucket `b` is stored.
pub open spec fn bucket_at(v: Vol, t: Map<u64, Seq<u8>>, m: Mp, b: u32, x: Bucket) -> bool {
    &&& dir::dir_addr(v, t, m, 1 + b) matches Ok(blk)
    &&& vol::rd(v, t, blk) matches Ok(bytes)
    &&& 0 <= x.depth <= 255
    &&& is_bucket(bytes, x.depth as u8, x.es)
}

/// Header and buckets are stored, each in a block of its own.
pub open spec fn stored(v: Vol, t: Map<u64, Seq<u8>>, m: Mp, hblk: u64, h: Dh, bs: Buckets) -> bool {
    &&& mapped_apart(v, t, m)
    &&& header_at(v, t, m, hblk, h)
    &&& buckets_at(v, t, m, hblk, h.table, bs)
}

/// The buckets of a table are stored, each in a block of its own that is not
/// `hblk`.
pub open spec fn buckets_at(
    v: Vol,
    t: Map<u64, Seq<u8>>,
    m: Mp,
    hblk: u64,
    table: Seq<u32>,
    bs: Buckets,
) -> bool {
    &&& forall|i: int|
        #![trigger table[i]]
        0 <= i < table.len() ==> bucket_at(v, t, m, table[i], bs(table[i])) && dir::dir_addr(
            v,
            t,
            m,
            1 + table[i],
        ) != Ok::<u64, FsError>(hblk)
    &&& forall|i: int, j: int|
        #![trigger table[i], table[j]]
        0 <= i < table.len() && 0 <= j < table.len() && table[i] != table[j] ==> dir::dir_addr(
            v,
            t,
            m,
            1 + table[i],
        ) != dir::dir_addr(v, t, m, 1 + table[j])
}

/// What is stored is what the directory operations read.
pub proof fn lemma_stored_reads(
    v: Vol,
    t: Map<u64, Seq<u8>>,
    m: Mp,
    hblk: u64,
    h: Dh,
    bs: Buckets,
)
    requires
        stored(v, t, m, hblk, h, bs),
    ensures
        dir::dh_of(v, t, m) == Ok::<(u64, Dh), FsError>((hblk, h)),
        forall|i: int|
            #![trigger h.table[i]]
            0 <= i < h.table.len() ==> dir::bucket_of(v, t, m, h.table[i]) == Ok::<
                (u64, u8, Seq<Hent>),
                FsError,
            >(
                (
                    dir::dir_addr(v, t, m, 1 + h.table[i])->Ok_0,
                    bs(h.table[i]).depth as u8,
                    bs(h.table[i]).es,
                ),
            ),
{
    reveal(dir::dh_of);
    reveal(dir::bucket_of);
    assert forall|i: int|
        #![trigger h.table[i]]
        0 <= i < h.table.len() implies dir::bucket_of(v, t, m, h.table[i]) == Ok::<
        (u64, u8, Seq<Hent>),
        FsError,
    >(
        (
            dir::dir_addr(v, t, m, 1 + h.table[i])->Ok_0,
            bs(h.table[i]).depth as u8,
            bs(h.table[i]).es,
        ),
    ) by {
        assert(bucket_at(v, t, m, h.table[i], bs(h.table[i])));
    }
}

/// Finding a name is looking its hash up.
pub proof fn lemma_found(
    v: Vol,
    t: Map<u64, Seq<u8>>,
    uuid: Seq<u8>,
    m: Mp,
    hblk: u64,
    h: Dh,
    bs: Buckets,
    name: Seq<char>,
)
    requires
        stored(v, t, m, hblk, h, bs),
        dir_model::fits(h, bs),
    ensures
        dir::hashed_found(v, t, uuid, m, name) == Ok::<Option<Dirent>, FsError>(
            plain(dir_model::lookup(h, bs, bucket::name_hash(uuid, name), name)),
        ),
{
    let hash = bucket::name_hash(uuid, name);
    lemma_stored_reads(v, t, m, hblk, h, bs);
    bucket::lemma_slot_bound(hash, h.depth as int);
    let s = bucket::slot_of(hash, h.depth as int);
    assert(h.table[s] == dir::bucket_for(h, hash));
}

/// An entry without its hash.
pub open spec fn plain(e: Option<Hent>) -> Option<Dirent> {
    match e {
        Some(x) => Some(bucket::dirent_of(x)),
        None => None,
    }
}

/// Storing a bucket of the table.
proof fn lemma_store_bucket(
    v: Vol,
    t: Map<u64, Seq<u8>>,
    m: Mp,
    hblk: u64,
    table: Seq<u32>,
    bs: Buckets,
    b: u32,
    blk: u64,
    depth: u8,
    es: Seq<Hent>,
)
    requires
        v.bs >= 24,
        mapped_apart(v, t, m),
        buckets_at(v, t, m, hblk, table, bs),
        dir::dir_addr(v, t, m, 1 + b) == Ok::<u64, FsError>(blk),
        blk != hblk,
        forall|i: int|
            #![trigger table[i]]
            0 <= i < table.len() && table[i] != b ==> dir::dir_addr(v, t, m, 1 + table[i]) != Ok::<
                u64,
                FsError,
            >(blk),
        dir::bucket_to(v, t, blk, depth, es).1 is Ok,
    ensures
        ({
            let t1 = dir::bucket_to(v, t, blk, depth, es).0;
            let x = Bucket { depth: depth as int, es };
            &&& mapped_apart(v, t1, m)
            &&& forall|fb: int|
                0 <= fb ==> #[trigger] dir::dir_addr(v, t1, m, fb) == dir::dir_addr(v, t, m, fb)
            &&& buckets_at(v, t1, m, hblk, table, dir_model::with_bucket(bs, b, x))
            &&& bucket_at(v, t1, m, b, x)
            &&& forall|y: u64| y != blk ==> #[trigger] vol::rd(v, t1, y) == vol::rd(v, t, y)
        }),
{
    let t1 = dir::bucket_to(v, t, blk, depth, es).0;
    let x = Bucket { depth: depth as int, es };
    let bs1 = dir_model::with_bucket(bs, b, x);
    law_bucket_reads_back(v, t, blk, depth, es);
    assert(is_block(v, t, m, blk));
    assert(rest_kept(v, t, t1, m));
    lemma_mapped_apart(v, t, t1, m);
    assert forall|i: int|
        #![trigger table[i]]
        0 <= i < table.len() implies bucket_at(v, t1, m, table[i], bs1(table[i]))
        && dir::dir_addr(v, t1, m, 1 + table[i]) != Ok::<u64, FsError>(hblk) by {
        assert(bucket_at(v, t, m, table[i], bs(table[i])));
        assert(dir::dir_addr(v, t1, m, 1 + table[i]) == dir::dir_addr(v, t, m, 1 + table[i]));
        let y = dir::dir_addr(v, t, m, 1 + table[i])->Ok_0;
        if table[i] != b {
            assert(y != blk);
            assert(vol::rd(v, t1, y) == vol::rd(v, t, y));
        }
    }
    assert forall|i: int, j: int|
        #![trigger table[i], table[j]]
        0 <= i < table.len() && 0 <= j < table.len() && table[i] != table[j] implies dir::dir_addr(
        v,
        t1,
        m,
        1 + table[i],
    ) != dir::dir_addr(v, t1, m, 1 + table[j]) by {
        assert(dir::dir_addr(v, t1, m, 1 + table[i]) == dir::dir_addr(v, t, m, 1 + table[i]));
        assert(dir::dir_addr(v, t1, m, 1 + table[j]) == dir::dir_addr(v, t, m, 1 + table[j]));
    }
}

/// Storing a bucket of a stored directory.
pub proof fn lemma_stored_bucket(
    v: Vol,
    t: Map<u64, Seq<u8>>,
    m: Mp,
    hblk: u64,
    h: Dh,
    bs: Buckets,
    i: int,
    depth: u8,
    es: Seq<Hent>,
)
    requires
        v.bs >= 24,
        stored(v, t, m, hblk, h, bs),
        0 <= i < h.table.len(),
        dir::bucket_to(
            v,
            t,
            dir::dir_addr(v, t, m, 1 + h.table[i])->Ok_0,
            depth,
            es,
        ).1 is Ok,
    ensures
        stored(
            v,
            dir::bucket_to(v, t, dir::dir_addr(v, t, m, 1 + h.table[i])->Ok_0, depth, es).0,
            m,
            hblk,
            h,
            dir_model::with_bucket(bs, h.table[i], Bucket { depth: depth as int, es }),
        ),
{
    let b = h.table[i];
    assert(bucket_at(v, t, m, b, bs(b)));
    let blk = dir::dir_addr(v, t, m, 1 + b)->Ok_0;
    assert(dir::dir_addr(v, t, m, 1 + b) != Ok::<u64, FsError>(hblk));
    lemma_store_bucket(v, t, m, hblk, h.table, bs, b, blk, depth, es);
    let t1 = dir::bucket_to(v, t, blk, depth, es).0;
    assert(vol::rd(v, t1, hblk) == vol::rd(v, t, hblk));
    assert(dir::dir_addr(v, t1, m, 0) == dir::dir_addr(v, t, m, 0));
}

/// Storing the header.
proof fn lemma_store_header(
    v: Vol,
    t: Map<u64, Seq<u8>>,
    m: Mp,
    hblk: u64,
    h: Dh,
    bs: Buckets,
)
    requires
        v.bs >= 24,
        mapped_apart(v, t, m),
        dir::dir_addr(v, t, m, 0) == Ok::<u64, FsError>(hblk),
        buckets_at(v, t, m, hblk, h.table, bs),
        h.depth <= 31,
        h.table.len() == record::two_to(h.depth as int),
        dir::dh_to(v, t, hblk, h).1 is Ok,
    ensures
        stored(v, dir::dh_to(v, t, hblk, h).0, m, hblk, h, bs),
{
    let t1 = dir::dh_to(v, t, hblk, h).0;
    let table = h.table;
    law_dir_header_reads_back(v, t, hblk, h);
    assert(is_block(v, t, m, hblk));
    assert(rest_kept(v, t, t1, m));
    lemma_mapped_apart(v, t, t1, m);
    assert(dir::dir_addr(v, t1, m, 0) == dir::dir_addr(v, t, m, 0));
    assert forall|i: int|
        #![trigger table[i]]
        0 <= i < table.len() implies bucket_at(v, t1, m, table[i], bs(table[i]))
        && dir::dir_addr(v, t1, m, 1 + table[i]) != Ok::<u64, FsError>(hblk) by {
        assert(bucket_at(v, t, m, table[i], bs(table[i])));
        assert(dir::dir_addr(v, t1, m, 1 + table[i]) == dir::dir_addr(v, t, m, 1 + table[i]));
        let y = dir::dir_addr(v, t, m, 1 + table[i])->Ok_0;
        assert(vol::rd(v, t1, y) == vol::rd(v, t, y));
    }
    assert forall|i: int, j: int|
        #![trigger table[i], table[j]]
        0 <= i < table.len() && 0 <= j < table.len() && table[i] != table[j] implies dir::dir_addr(
        v,
        t1,
        m,
        1 + table[i],
    ) != dir::dir_addr(v, t1, m, 1 + table[j]) by {
        assert(dir::dir_addr(v, t1, m, 1 + table[i]) == dir::dir_addr(v, t, m, 1 + table[i]));
        assert(dir::dir_addr(v, t1, m, 1 + table[j]) == dir::dir_addr(v, t, m, 1 + table[j]));
    }
}

// --- merging ------------------------------------------------------------------

/// Every bucket number below the bucket count is in use or on the freelist,
/// which names it once, and not both.
pub open spec fn numbered(h: Dh) -> bool {
    &&& forall|b: u32| b < h.nbuckets ==> #[trigger] h.free.contains(b) || h.table.contains(b)
    &&& forall|i: int|
        #![trigger h.table[i]]
        0 <= i < h.table.len() ==> h.table[i] < h.nbuckets && !h.free.contains(h.table[i])
    &&& forall|k: int| 0 <= k < h.free.len() ==> #[trigger] h.free[k] < h.nbuckets
    &&& forall|k: int, l: int|
        0 <= k < h.free.len() && 0 <= l < h.free.len() && #[trigger] h.free[k]
            == #[trigger] h.free[l] ==> k == l
}

/// A hashed directory in order: stored, and table and buckets fit each other.
pub open spec fn in_order(v: Vol, t: Map<u64, Seq<u8>>, m: Mp, hblk: u64, h: Dh, bs: Buckets) -> bool {
    &&& stored(v, t, m, hblk, h, bs)
    &&& dir_model::fits(h, bs)
    &&& numbered(h)
}

/// Every search finds the same in both.
pub open spec fn same_lookups(h: Dh, bs: Buckets, h1: Dh, bs1: Buckets) -> bool {
    forall|hash: u64, name: Seq<char>| #[trigger]
        dir_model::lookup(h1, bs1, hash, name) == dir_model::lookup(h, bs, hash, name)
}

/// Where a pair was found.
proof fn lemma_first_pair(v: Vol, t: Map<u64, Seq<u8>>, m: Mp, h: Dh, i: int) -> (k: int)
    requires
        0 <= i,
    ensures
        dir::first_pair(v, t, m, h, i) matches Ok(Some(x)) ==> i <= k < h.table.len()
            && dir::pair_at(v, t, m, h, k) == Ok::<Option<Pair>, FsError>(Some(x)),
    decreases h.table.len() - i,
{
    if i >= h.table.len() {
        i
    } else if dir::pair_at(v, t, m, h, i) matches Ok(None) {
        lemma_first_pair(v, t, m, h, i + 1)
    } else {
        i
    }
}

/// The number of a bucket taken out of a table and freed.
pub proof fn lemma_numbered_merge(h: Dh, b: u32, b2: u32)
    requires
        numbered(h),
        h.table.contains(b),
        h.table.contains(b2),
        b != b2,
    ensures
        numbered(Dh { table: dir::replaced(h.table, b2, b), free: h.free.push(b2), ..h }),
{
    let h1 = Dh { table: dir::replaced(h.table, b2, b), free: h.free.push(b2), ..h };
    let i2 = choose|i: int| 0 <= i < h.table.len() && h.table[i] == b2;
    let i1 = choose|i: int| 0 <= i < h.table.len() && h.table[i] == b;
    assert(h.table[i2] == b2 && h.table[i1] == b);
    assert(!h.free.contains(b2) && !h.free.contains(b));
    assert forall|n: u32| n < h1.nbuckets implies #[trigger] h1.free.contains(n)
        || h1.table.contains(n) by {
        if n == b2 {
            assert(h1.free[h.free.len() as int] == n);
        } else if h.free.contains(n) {
            let k = choose|k: int| 0 <= k < h.free.len() && h.free[k] == n;
            assert(h1.free[k] == n);
        } else {
            let k = choose|k: int| 0 <= k < h.table.len() && h.table[k] == n;
            assert(h1.table[k] == n);
        }
    }
    assert forall|i: int|
        #![trigger h1.table[i]]
        0 <= i < h1.table.len() implies h1.table[i] < h1.nbuckets && !h1.free.contains(
        h1.table[i],
    ) by {
        let o = h.table[i];
        let n = h1.table[i];
        assert(n == if o == b2 { b } else { o });
        if h1.free.contains(n) {
            let k = choose|k: int| 0 <= k < h1.free.len() && h1.free[k] == n;
            if k < h.free.len() {
                assert(h.free[k] == n);
                assert(h.free.contains(n));
            }
        }
    }
    assert forall|k: int, l: int|
        0 <= k < h1.free.len() && 0 <= l < h1.free.len() && #[trigger] h1.free[k]
            == #[trigger] h1.free[l] implies k == l by {
        if k < h.free.len() {
            assert(h.free[k] == h1.free[k]);
        }
        if l < h.free.len() {
            assert(h.free[l] == h1.free[l]);
        }
        if k < h.free.len() && l == h.free.len() {
            assert(h.free.contains(h.free[k]));
        }
        if l < h.free.len() && k == h.free.len() {
            assert(h.free.contains(h.free[l]));
        }
    }
    assert forall|k: int| 0 <= k < h1.free.len() implies #[trigger] h1.free[k] < h1.nbuckets by {
        if k < h.free.len() {
            assert(h.free[k] == h1.free[k]);
        }
    }
}

/// Merging a pair of buckets.
#[verifier::rlimit(40)]
proof fn lemma_pair_merged(
    v: Vol,
    t: Map<u64, Seq<u8>>,
    m: Mp,
    hblk: u64,
    h: Dh,
    bs: Buckets,
    i: int,
    x: Pair,
) -> (r: (Dh, Buckets))
    requires
        v.bs >= 24,
        in_order(v, t, m, hblk, h, bs),
        0 <= i < h.table.len(),
        dir::pair_at(v, t, m, h, i) == Ok::<Option<Pair>, FsError>(Some(x)),
        dir::pair_merged(v, t, hblk, h, x).1 is Ok,
    ensures
        in_order(v, dir::pair_merged(v, t, hblk, h, x).0, m, hblk, r.0, r.1),
        same_lookups(h, bs, r.0, r.1),
        r.0 == (Dh {
            table: dir::replaced(h.table, x.bno2, x.bno),
            free: h.free.push(x.bno2),
            ..h
        }),
{
    reveal(dir::pair_at);
    reveal(dir::pair_merged);
    lemma_stored_reads(v, t, m, hblk, h, bs);
    let b = h.table[i];
    let ld = bs(b).depth;
    let j = dir::flipped(i, h.depth - ld);
    assert(bucket_at(v, t, m, b, bs(b)));
    dir_model::lemma_flipped(i, h.depth as int, ld);
    let b2 = h.table[j];
    assert(bucket_at(v, t, m, b2, bs(b2)));
    assert(x.bno == b && x.bno2 == b2 && b != b2);
    assert(x.depth == ld && bs(b2).depth == ld);
    assert(x.es == bs(b).es && x.es2 == bs(b2).es);
    let both = Bucket { depth: ld - 1, es: x.es + x.es2 };
    let bs1 = dir_model::with_bucket(bs, b, both);
    let t1 = dir::bucket_to(v, t, x.bblk, (x.depth - 1) as u8, x.es + x.es2).0;
    lemma_stored_bucket(v, t, m, hblk, h, bs, i, (x.depth - 1) as u8, x.es + x.es2);
    let t2 = dir::bucket_to(v, t1, x.bblk2, 0, Seq::empty()).0;
    let h1 = Dh { table: dir::replaced(h.table, b2, b), free: h.free.push(b2), ..h };
    assert(mapped_apart(v, t1, m));
    law_bucket_reads_back(v, t, x.bblk, (x.depth - 1) as u8, x.es + x.es2);
    assert(rest_kept(v, t, t1, m)) by {
        assert(is_block(v, t, m, x.bblk));
    }
    lemma_mapped_apart(v, t, t1, m);
    assert(dir::dir_addr(v, t1, m, 1 + b2) == dir::dir_addr(v, t, m, 1 + b2));
    assert(dir::dir_addr(v, t1, m, 1 + b2) == Ok::<u64, FsError>(x.bblk2));
    assert forall|k: int|
        #![trigger h1.table[k]]
        0 <= k < h1.table.len() implies h1.table[k] == (if h.table[k] == b2 {
        b
    } else {
        h.table[k]
    }) && h1.table[k] != b2 by {}
    assert(buckets_at(v, t1, m, hblk, h1.table, bs1)) by {
        assert forall|k: int|
            #![trigger h1.table[k]]
            0 <= k < h1.table.len() implies bucket_at(v, t1, m, h1.table[k], bs1(h1.table[k]))
            && dir::dir_addr(v, t1, m, 1 + h1.table[k]) != Ok::<u64, FsError>(hblk) by {
            if h.table[k] == b2 {
                assert(bucket_at(v, t1, m, h.table[i], bs1(h.table[i])));
            } else {
                assert(bucket_at(v, t1, m, h.table[k], bs1(h.table[k])));
            }
        }
        assert forall|k: int, l: int|
            #![trigger h1.table[k], h1.table[l]]
            0 <= k < h1.table.len() && 0 <= l < h1.table.len() && h1.table[k]
                != h1.table[l] implies dir::dir_addr(v, t1, m, 1 + h1.table[k]) != dir::dir_addr(
            v,
            t1,
            m,
            1 + h1.table[l],
        ) by {
            let k0 = if h.table[k] == b2 { i } else { k };
            let l0 = if h.table[l] == b2 { i } else { l };
            assert(h.table[k0] == h1.table[k] && h.table[l0] == h1.table[l]);
        }
    }
    assert forall|k: int|
        #![trigger h1.table[k]]
        0 <= k < h1.table.len() && h1.table[k] != b2 implies dir::dir_addr(
        v,
        t1,
        m,
        1 + h1.table[k],
    ) != Ok::<u64, FsError>(x.bblk2) by {
        let k0 = if h.table[k] == b2 { i } else { k };
        assert(h.table[k0] == h1.table[k]);
        assert(h.table[k0] != h.table[j]);
        assert(dir::dir_addr(v, t1, m, 1 + h.table[k0]) == dir::dir_addr(
            v,
            t,
            m,
            1 + h.table[k0],
        ));
    }
    assert(x.bblk2 != hblk) by {
        assert(dir::dir_addr(v, t, m, 1 + h.table[j]) != Ok::<u64, FsError>(hblk));
    }
    lemma_store_bucket(v, t1, m, hblk, h1.table, bs1, b2, x.bblk2, 0, Seq::empty());
    let bs2 = dir_model::with_bucket(bs1, b2, Bucket { depth: 0, es: Seq::empty() });
    dir_model::lemma_merge(h, bs, i, h.free.push(b2));
    assert(dir::dir_addr(v, t2, m, 0) == dir::dir_addr(v, t1, m, 0));
    assert(dir::dir_addr(v, t1, m, 0) == dir::dir_addr(v, t, m, 0));
    lemma_store_header(v, t2, m, hblk, h1, bs2);
    let t3 = dir::dh_to(v, t2, hblk, h1).0;
    assert(stored(v, t3, m, hblk, h1, bs1)) by {
        assert forall|k: int|
            #![trigger h1.table[k]]
            0 <= k < h1.table.len() implies bs2(h1.table[k]) == bs1(h1.table[k]) by {}
    }
    assert(h.table.contains(h.table[i]) && h.table.contains(h.table[j]));
    lemma_numbered_merge(h, b, b2);
    (h1, bs1)
}

/// The buckets in use and the bits of the table's index, of which a round of merging
/// takes one.
pub open spec fn to_merge(h: Dh) -> int {
    h.nbuckets - h.free.len() + h.depth
}

/// One round of merging.
#[verifier::rlimit(40)]
pub proof fn lemma_merge_round(
    v: Vol,
    t: Map<u64, Seq<u8>>,
    m: Mp,
    hblk: u64,
    h: Dh,
    bs: Buckets,
) -> (r: (Dh, Buckets))
    requires
        v.bs >= 24,
        in_order(v, t, m, hblk, h, bs),
        dir::merge_round(v, t, m).1 is Ok,
    ensures
        in_order(v, dir::merge_round(v, t, m).0, m, hblk, r.0, r.1),
        same_lookups(h, bs, r.0, r.1),
        r.0.nbuckets == h.nbuckets,
        r.0.table.len() <= h.table.len(),
        dir::merge_round(v, t, m).1 == Ok::<bool, FsError>(true) ==> to_merge(r.0) == to_merge(h)
            - 1,
{
    reveal(dir::merge_round);
    lemma_stored_reads(v, t, m, hblk, h, bs);
    if h.depth == 0 {
        (h, bs)
    } else {
        let i = lemma_first_pair(v, t, m, h, 0);
        let found = dir::first_pair(v, t, m, h, 0);
        if found matches Ok(Some(_)) {
            lemma_pair_merged(v, t, m, hblk, h, bs, i, found->Ok_0->Some_0)
        } else if dir::all_paired(h.table) {
            let h1 = Dh { depth: (h.depth - 1) as u8, table: dir::halved(h.table), ..h };
            dir_model::lemma_halve(h, bs);
            assert(buckets_at(v, t, m, hblk, h1.table, bs)) by {
                assert forall|k: int|
                    #![trigger h1.table[k]]
                    0 <= k < h1.table.len() implies bucket_at(
                    v,
                    t,
                    m,
                    h1.table[k],
                    bs(h1.table[k]),
                ) && dir::dir_addr(v, t, m, 1 + h1.table[k]) != Ok::<u64, FsError>(hblk) by {
                    assert(h1.table[k] == h.table[2 * k]);
                }
                assert forall|k: int, l: int|
                    #![trigger h1.table[k], h1.table[l]]
                    0 <= k < h1.table.len() && 0 <= l < h1.table.len() && h1.table[k]
                        != h1.table[l] implies dir::dir_addr(v, t, m, 1 + h1.table[k])
                    != dir::dir_addr(v, t, m, 1 + h1.table[l]) by {
                    assert(h1.table[k] == h.table[2 * k] && h1.table[l] == h.table[2 * l]);
                }
            }
            assert(numbered(h1)) by {
                assert forall|n: u32| n < h1.nbuckets implies #[trigger] h1.free.contains(n)
                    || h1.table.contains(n) by {
                    if !h.free.contains(n) {
                        let k = choose|k: int| 0 <= k < h.table.len() && h.table[k] == n;
                        assert(h.table[2 * (k / 2)] == h.table[2 * (k / 2) + 1]);
                        assert(k == 2 * (k / 2) || k == 2 * (k / 2) + 1);
                        assert(record::two_to(h.depth as int) == 2 * record::two_to(h.depth - 1));
                        assert(h1.table[k / 2] == n);
                    }
                }
                assert forall|k: int|
                    #![trigger h1.table[k]]
                    0 <= k < h1.table.len() implies h1.table[k] < h1.nbuckets
                    && !h1.free.contains(h1.table[k]) by {
                    assert(h1.table[k] == h.table[2 * k]);
                }
            }
            lemma_store_header(v, t, m, hblk, h1, bs);
            (h1, bs)
        } else {
            (h, bs)
        }
    }
}

/// Merging until nothing is left to merge.
pub proof fn lemma_merged(
    v: Vol,
    t: Map<u64, Seq<u8>>,
    m: Mp,
    hblk: u64,
    h: Dh,
    bs: Buckets,
    rounds: int,
) -> (r: (Dh, Buckets))
    requires
        v.bs >= 24,
        in_order(v, t, m, hblk, h, bs),
        dir::merged(v, t, m, rounds).1 is Ok,
    ensures
        in_order(v, dir::merged(v, t, m, rounds).0, m, hblk, r.0, r.1),
        same_lookups(h, bs, r.0, r.1),
    decreases rounds,
{
    if rounds <= 0 {
        (h, bs)
    } else {
        let (h1, bs1) = lemma_merge_round(v, t, m, hblk, h, bs);
        let (t1, r1) = dir::merge_round(v, t, m);
        if r1 == Ok::<bool, FsError>(true) {
            let (h2, bs2) = lemma_merged(v, t1, m, hblk, h1, bs1, rounds - 1);
            assert forall|hash: u64, name: Seq<char>| #[trigger]
                dir_model::lookup(h2, bs2, hash, name) == dir_model::lookup(h, bs, hash, name) by {
                assert(dir_model::lookup(h1, bs1, hash, name) == dir_model::lookup(
                    h,
                    bs,
                    hash,
                    name,
                ));
            }
            (h2, bs2)
        } else {
            (h1, bs1)
        }
    }
}

// --- listing ------------------------------------------------------------------

/// An entry is in a bucket in use, from bucket `b` on.
pub open spec fn in_buckets(h: Dh, bs: Buckets, b: int, e: Dirent) -> bool {
    exists|n: u32, k: int|
        #![trigger bs(n).es[k]]
        {
            &&& b <= n < h.nbuckets
            &&& !h.free.contains(n)
            &&& 0 <= k < bs(n).es.len()
            &&& bucket::dirent_of(bs(n).es[k]) == e
        }
}

/// What is gathered from the buckets.
pub proof fn lemma_gather(
    v: Vol,
    t: Map<u64, Seq<u8>>,
    m: Mp,
    hblk: u64,
    h: Dh,
    bs: Buckets,
    b: int,
    acc: Seq<Dirent>,
)
    requires
        in_order(v, t, m, hblk, h, bs),
        0 <= b,
    ensures
        dir::gather(v, t, m, h, b, acc) matches Ok(es) && {
            forall|e: Dirent| #[trigger]
                es.contains(e) == (acc.contains(e) || in_buckets(h, bs, b, e))
        },
    decreases h.nbuckets - b,
{
    if b < h.nbuckets {
        let n = b as u32;
        if h.free.contains(n) {
            lemma_gather(v, t, m, hblk, h, bs, b + 1, acc);
            assert forall|e: Dirent| in_buckets(h, bs, b, e) == #[trigger] in_buckets(
                h,
                bs,
                b + 1,
                e,
            ) by {
                lemma_in_buckets(h, bs, b, e);
            }
            let es = dir::gather(v, t, m, h, b + 1, acc)->Ok_0;
            assert forall|e: Dirent| #[trigger] es.contains(e) == (acc.contains(e) || in_buckets(
                h,
                bs,
                b,
                e,
            )) by {
                assert(in_buckets(h, bs, b, e) == in_buckets(h, bs, b + 1, e));
            }
        } else {
            lemma_stored_reads(v, t, m, hblk, h, bs);
            assert(h.table.contains(n));
            let i = choose|i: int| 0 <= i < h.table.len() && h.table[i] == n;
            assert(h.table[i] == n);
            let more = dir::plain(bs(n).es);
            lemma_gather(v, t, m, hblk, h, bs, b + 1, acc + more);
            let es = dir::gather(v, t, m, h, b + 1, acc + more)->Ok_0;
            assert forall|e: Dirent| #[trigger] es.contains(e) == (acc.contains(e) || in_buckets(
                h,
                bs,
                b,
                e,
            )) by {
                lemma_in_buckets(h, bs, b, e);
                assert((acc + more).contains(e) == (acc.contains(e) || more.contains(e))) by {
                    if acc.contains(e) {
                        let k = choose|k: int| 0 <= k < acc.len() && acc[k] == e;
                        assert((acc + more)[k] == e);
                    }
                    if more.contains(e) {
                        let k = choose|k: int| 0 <= k < more.len() && more[k] == e;
                        assert((acc + more)[acc.len() + k] == e);
                    }
                }
            }
        }
    } else {
        assert forall|e: Dirent| #[trigger] acc.contains(e) == (acc.contains(e) || in_buckets(
            h,
            bs,
            b,
            e,
        )) by {}
    }
}

/// Either in bucket `b` or past it.
proof fn lemma_in_buckets(h: Dh, bs: Buckets, b: int, e: Dirent)
    requires
        0 <= b < h.nbuckets,
    ensures
        in_buckets(h, bs, b, e) == (in_buckets(h, bs, b + 1, e) || (!h.free.contains(b as u32)
            && dir::plain(bs(b as u32).es).contains(e))),
{
    let n0 = b as u32;
    let more = dir::plain(bs(n0).es);
    if in_buckets(h, bs, b, e) {
        let (n, k) = choose|n: u32, k: int|
            #![trigger bs(n).es[k]]
            {
                &&& b <= n < h.nbuckets
                &&& !h.free.contains(n)
                &&& 0 <= k < bs(n).es.len()
                &&& bucket::dirent_of(bs(n).es[k]) == e
            };
        if n == n0 {
            assert(more[k] == e);
        } else {
            assert(bucket::dirent_of(bs(n).es[k]) == e);
        }
    }
    if !h.free.contains(n0) && more.contains(e) {
        let k = choose|k: int| 0 <= k < more.len() && more[k] == e;
        assert(bucket::dirent_of(bs(n0).es[k]) == e);
    }
    if in_buckets(h, bs, b + 1, e) {
        let (n, k) = choose|n: u32, k: int|
            #![trigger bs(n).es[k]]
            {
                &&& b + 1 <= n < h.nbuckets
                &&& !h.free.contains(n)
                &&& 0 <= k < bs(n).es.len()
                &&& bucket::dirent_of(bs(n).es[k]) == e
            };
        assert(bucket::dirent_of(bs(n).es[k]) == e);
    }
}

/// Order of names is total and transitive.
proof fn lemma_name_order(a: Seq<char>, b: Seq<char>, c: Seq<char>)
    ensures
        dir::name_le(a, b) || dir::name_le(b, a),
        dir::name_le(a, b) && dir::name_le(b, c) ==> dir::name_le(a, c),
    decreases a.len(),
{
    if a.len() > 0 && b.len() > 0 {
        if c.len() > 0 {
            lemma_name_order(a.skip(1), b.skip(1), c.skip(1));
        } else {
            lemma_name_order(a.skip(1), b.skip(1), c);
        }
    }
}

/// In order of name.
pub open spec fn ordered(es: Seq<Dirent>) -> bool {
    forall|i: int, j: int|
        0 <= i <= j < es.len() ==> dir::name_le((#[trigger] es[i]).name, (#[trigger] es[j]).name)
}

/// An entry put among ordered ones.
proof fn lemma_put_by_name(es: Seq<Dirent>, e: Dirent)
    requires
        ordered(es),
    ensures
        ordered(dir::put_by_name(es, e)),
        dir::put_by_name(es, e).to_multiset() == es.to_multiset().insert(e),
        dir::put_by_name(es, e).len() == es.len() + 1,
    decreases es.len(),
{
    broadcast use vstd::seq_lib::group_to_multiset_ensures;

    let r = dir::put_by_name(es, e);
    if es.len() == 0 || dir::name_le(es.last().name, e.name) {
        assert forall|i: int, j: int| 0 <= i <= j < r.len() implies dir::name_le(
            (#[trigger] r[i]).name,
            (#[trigger] r[j]).name,
        ) by {
            lemma_name_order(r[i].name, r[j].name, r[j].name);
            if j == es.len() && i < es.len() {
                assert(dir::name_le(es[i].name, es[es.len() - 1].name));
                lemma_name_order(es[i].name, es.last().name, e.name);
            } else if j < es.len() {
                assert(r[i] == es[i] && r[j] == es[j]);
            }
        }
    } else {
        let head = es.drop_last();
        assert(ordered(head)) by {
            assert forall|i: int, j: int| 0 <= i <= j < head.len() implies dir::name_le(
                (#[trigger] head[i]).name,
                (#[trigger] head[j]).name,
            ) by {
                assert(head[i] == es[i] && head[j] == es[j]);
            }
        }
        lemma_put_by_name(head, e);
        let p = dir::put_by_name(head, e);
        assert(r == p.push(es.last()));
        assert(es == head.push(es.last()));
        assert(r.to_multiset() =~= es.to_multiset().insert(e));
        assert forall|i: int, j: int| 0 <= i <= j < r.len() implies dir::name_le(
            (#[trigger] r[i]).name,
            (#[trigger] r[j]).name,
        ) by {
            if j < p.len() {
                assert(r[i] == p[i] && r[j] == p[j]);
            } else if i < p.len() {
                assert(p.to_multiset().count(p[i]) > 0);
                if p[i] == e {
                    lemma_name_order(e.name, es.last().name, e.name);
                } else {
                    assert(head.to_multiset().count(p[i]) > 0);
                    assert(head.contains(p[i]));
                    let k = choose|k: int| 0 <= k < head.len() && head[k] == p[i];
                    assert(es[k] == p[i]);
                    assert(dir::name_le(es[k].name, es[es.len() - 1].name));
                }
            } else {
                lemma_name_order(r[i].name, r[i].name, r[i].name);
            }
        }
    }
}

/// A listing is in order of name, and holds the gathered entries, each as
/// often.
pub proof fn law_listing_is_ordered(es: Seq<Dirent>)
    ensures
        ordered(dir::by_name(es)),
        dir::by_name(es).to_multiset() == es.to_multiset(),
        dir::by_name(es).len() == es.len(),
    decreases es.len(),
{
    broadcast use vstd::seq_lib::group_to_multiset_ensures;

    if es.len() > 0 {
        law_listing_is_ordered(es.drop_last());
        lemma_put_by_name(dir::by_name(es.drop_last()), es.last());
        assert(es == es.drop_last().push(es.last()));
    }
}

/// The hashes that the buckets hold are those of the names.
pub open spec fn hashes_right(uuid: Seq<u8>, h: Dh, bs: Buckets) -> bool {
    forall|i: int, k: int|
        #![trigger bs(h.table[i]).es[k]]
        0 <= i < h.table.len() && 0 <= k < bs(h.table[i]).es.len() ==> bs(h.table[i]).es[k].hash
            == bucket::name_hash(uuid, bs(h.table[i]).es[k].name)
}

/// A hashed directory in order lists exactly the entries that are found by
/// their names.
pub proof fn law_listed_is_found(
    v: Vol,
    t: Map<u64, Seq<u8>>,
    uuid: Seq<u8>,
    m: Mp,
    hblk: u64,
    h: Dh,
    bs: Buckets,
    e: Dirent,
)
    requires
        m.format == FMT_EXTENT || m.format == FMT_TREE,
        in_order(v, t, m, hblk, h, bs),
        hashes_right(uuid, h, bs),
    ensures
        dir::listed(v, t, true, m) matches Ok(es) && ordered(es) && (es.contains(e) == (dir::found(
            v,
            t,
            uuid,
            true,
            m,
            e.name,
        ) == Ok::<Option<Dirent>, FsError>(Some(e)))),
{
    broadcast use vstd::seq_lib::group_to_multiset_ensures;

    lemma_stored_reads(v, t, m, hblk, h, bs);
    lemma_gather(v, t, m, hblk, h, bs, 0, Seq::empty());
    let all = dir::gather(v, t, m, h, 0, Seq::empty())->Ok_0;
    law_listing_is_ordered(all);
    let es = dir::by_name(all);
    assert(es.contains(e) == all.contains(e)) by {
        assert(es.contains(e) == (es.to_multiset().count(e) > 0));
        assert(all.contains(e) == (all.to_multiset().count(e) > 0));
    }
    assert(all.contains(e) == in_buckets(h, bs, 0, e)) by {
        assert(!Seq::<Dirent>::empty().contains(e));
    }
    lemma_found(v, t, uuid, m, hblk, h, bs, e.name);
    let hash = bucket::name_hash(uuid, e.name);
    let b = dir::bucket_for(h, hash);
    bucket::lemma_slot_bound(hash, h.depth as int);
    let s = bucket::slot_of(hash, h.depth as int);
    assert(h.table[s] == b);
    dir_model::lemma_named(bs(b).es, hash, e.name, 0);
    if in_buckets(h, bs, 0, e) {
        let (n, k) = choose|n: u32, k: int|
            #![trigger bs(n).es[k]]
            {
                &&& 0 <= n < h.nbuckets
                &&& !h.free.contains(n)
                &&& 0 <= k < bs(n).es.len()
                &&& bucket::dirent_of(bs(n).es[k]) == e
            };
        assert(h.table.contains(n));
        let i = choose|i: int| 0 <= i < h.table.len() && h.table[i] == n;
        assert(h.table[i] == n);
        assert(bs(h.table[i]).es[k].hash == hash);
        assert(dir::bucket_for(h, bs(h.table[i]).es[k].hash) == h.table[i]);
        dir_model::lemma_named_at(bs(n).es, hash, e.name, k);
    }
    if dir_model::lookup(h, bs, hash, e.name) is Some {
        let k = dir::hent_named(bs(b).es, hash, e.name, 0)->Some_0;
        if bucket::dirent_of(bs(b).es[k]) == e {
            assert(in_buckets(h, bs, 0, e));
        }
    }
}

// --- removal ------------------------------------------------------------------

/// A directory whose listing is empty finds nothing.
proof fn lemma_empty_listing(
    v: Vol,
    t: Map<u64, Seq<u8>>,
    m: Mp,
    hblk: u64,
    h: Dh,
    bs: Buckets,
    hash: u64,
    name: Seq<char>,
)
    requires
        m.format == FMT_EXTENT || m.format == FMT_TREE,
        in_order(v, t, m, hblk, h, bs),
        dir::listed(v, t, true, m) matches Ok(es) && es.len() == 0,
    ensures
        dir_model::lookup(h, bs, hash, name) is None,
{
    lemma_stored_reads(v, t, m, hblk, h, bs);
    lemma_gather(v, t, m, hblk, h, bs, 0, Seq::empty());
    let all = dir::gather(v, t, m, h, 0, Seq::empty())->Ok_0;
    law_listing_is_ordered(all);
    let b = dir::bucket_for(h, hash);
    bucket::lemma_slot_bound(hash, h.depth as int);
    assert(h.table[bucket::slot_of(hash, h.depth as int)] == b);
    dir_model::lemma_named(bs(b).es, hash, name, 0);
    if let Some(k) = dir::hent_named(bs(b).es, hash, name, 0) {
        let e = bucket::dirent_of(bs(b).es[k]);
        assert(in_buckets(h, bs, 0, e));
        assert(all.contains(e));
    }
}

/// Removing a name from a hashed directory in order: what is returned was
/// found under that name; afterwards nothing is; every other name finds what it
/// found; and the directory is in order again, or empty.
#[verifier::rlimit(40)]
pub proof fn law_removed_is_gone(
    v: Vol,
    p: Pool,
    uuid: Seq<u8>,
    d: Dn,
    hblk: u64,
    h: Dh,
    bs: Buckets,
    name: Seq<char>,
    other: Seq<char>,
) -> (q: (Dh, Buckets))
    requires
        v.bs >= 24,
        d.m.format == FMT_EXTENT || d.m.format == FMT_TREE,
        in_order(v, p.t, d.m, hblk, h, bs),
    ensures
        ({
            let (p1, d1, r) = dir::removed(v, p, uuid, true, d, name);
            r matches Ok(e) ==> {
                &&& in_order(v, p1.t, d1.m, hblk, q.0, q.1) || d1.m.format == FMT_EMPTY
                &&& dir::found(v, p.t, uuid, true, d.m, name) == Ok::<Option<Dirent>, FsError>(
                    Some(e),
                )
                &&& dir::found(v, p1.t, uuid, true, d1.m, name) == Ok::<Option<Dirent>, FsError>(
                    None,
                )
                &&& other != name ==> dir::found(v, p1.t, uuid, true, d1.m, other) == dir::found(
                    v,
                    p.t,
                    uuid,
                    true,
                    d.m,
                    other,
                )
            }
        }),
{
    let (p1, d1, r) = dir::removed(v, p, uuid, true, d, name);
    if r is Ok {
        let hash = bucket::name_hash(uuid, name);
        let m = d.m;
        lemma_stored_reads(v, p.t, m, hblk, h, bs);
        lemma_found(v, p.t, uuid, m, hblk, h, bs, name);
        lemma_found(v, p.t, uuid, m, hblk, h, bs, other);
        bucket::lemma_slot_bound(hash, h.depth as int);
        let s = bucket::slot_of(hash, h.depth as int);
        let b = h.table[s];
        assert(bucket_at(v, p.t, m, b, bs(b)));
        let es = bs(b).es;
        let k = dir::hent_named(es, hash, name, 0)->Some_0;
        dir_model::lemma_remove(h, bs, hash, name);
        let ld = bs(b).depth as u8;
        let blk = dir::dir_addr(v, p.t, m, 1 + b)->Ok_0;
        let t1 = dir::bucket_to(v, p.t, blk, ld, es.remove(k)).0;
        lemma_stored_bucket(v, p.t, m, hblk, h, bs, s, ld, es.remove(k));
        let bs1 = dir_model::with_bucket(bs, b, Bucket { depth: ld as int, es: es.remove(k) });
        assert(Bucket { depth: ld as int, es: es.remove(k) } == (Bucket {
            es: es.remove(k),
            ..bs(b)
        }));
        let (h2, bs2) = lemma_merged(v, t1, m, hblk, h, bs1, v.bs as int);
        let t2 = dir::merged(v, t1, m, v.bs as int).0;
        let ohash = bucket::name_hash(uuid, other);
        assert(dir_model::lookup(h2, bs2, hash, name) == dir_model::lookup(h, bs1, hash, name));
        assert(dir_model::lookup(h2, bs2, ohash, other) == dir_model::lookup(
            h,
            bs1,
            ohash,
            other,
        ));
        lemma_found(v, t2, uuid, m, hblk, h2, bs2, name);
        lemma_found(v, t2, uuid, m, hblk, h2, bs2, other);
        if dir::listed(v, t2, true, m)->Ok_0.len() == 0 {
            lemma_empty_listing(v, t2, m, hblk, h2, bs2, ohash, other);
        }
        (h2, bs2)
    } else {
        (h, bs)
    }
}

// --- insertion ----------------------------------------------------------------

/// The directory file grew well by block `fb`: every block that it had stands
/// where it stood, with the same contents, and block `fb` is at `nblk`, which
/// none of the others is.
pub open spec fn grown_well(v: Vol, p: Pool, d: Dn, p1: Pool, d1: Dn, fb: int, nblk: u64) -> bool {
    &&& mapped_apart(v, p1.t, d1.m)
    &&& forall|f: int|
        #![trigger dir::dir_addr(v, p1.t, d1.m, f)]
        0 <= f && f != fb && dir::dir_addr(v, p.t, d.m, f) is Ok ==> {
            let x = dir::dir_addr(v, p.t, d.m, f)->Ok_0;
            &&& dir::dir_addr(v, p1.t, d1.m, f) == Ok::<u64, FsError>(x)
            &&& vol::rd(v, p1.t, x) == vol::rd(v, p.t, x)
            &&& x != nblk
        }
    &&& dir::dir_addr(v, p1.t, d1.m, fb) == Ok::<u64, FsError>(nblk)
}

/// The bucket number that a split uses.
pub open spec fn new_bucket(h: Dh) -> u32 {
    if h.free.len() > 0 {
        h.free.last()
    } else {
        h.nbuckets
    }
}

/// The header after a split, before its table changes.
pub open spec fn split_header(h: Dh) -> Dh {
    Dh {
        nbuckets: if h.free.len() > 0 {
            h.nbuckets
        } else {
            (h.nbuckets + 1) as u32
        },
        free: if h.free.len() > 0 {
            h.free.drop_last()
        } else {
            h.free
        },
        ..h
    }
}

/// The bucket number of a split is not in use.
pub proof fn lemma_new_bucket(h: Dh)
    requires
        numbered(h),
    ensures
        !h.table.contains(new_bucket(h)),
{
    let n = new_bucket(h);
    if h.table.contains(n) {
        let i = choose|i: int| 0 <= i < h.table.len() && h.table[i] == n;
        assert(h.table[i] == n);
        if h.free.len() > 0 {
            assert(h.free[h.free.len() - 1] == n);
            assert(h.free.contains(n));
        }
    }
}

/// Numbers after a split: `table` uses those in use before and the new one.
proof fn lemma_numbered_split(h: Dh, h1: Dh)
    requires
        numbered(h),
        h.free.len() > 0 || h.nbuckets < u32::MAX,
        h1.nbuckets == split_header(h).nbuckets,
        h1.free == split_header(h).free,
        forall|n: u32| #[trigger]
            h1.table.contains(n) == (h.table.contains(n) || n == new_bucket(h)),
    ensures
        numbered(h1),
{
    let new = new_bucket(h);
    assert forall|n: u32| n < h1.nbuckets implies #[trigger] h1.free.contains(n)
        || h1.table.contains(n) by {
        if n != new && !h.table.contains(n) {
            assert(h.free.contains(n));
            let k = choose|k: int| 0 <= k < h.free.len() && h.free[k] == n;
            assert(h1.free[k] == n);
        }
    }
    assert forall|i: int|
        #![trigger h1.table[i]]
        0 <= i < h1.table.len() implies h1.table[i] < h1.nbuckets && !h1.free.contains(
        h1.table[i],
    ) by {
        let n = h1.table[i];
        assert(h1.table.contains(n));
        if h.table.contains(n) {
            let j = choose|j: int| 0 <= j < h.table.len() && h.table[j] == n;
            assert(h.table[j] == n);
        } else if h.free.len() > 0 {
            assert(h.free[h.free.len() - 1] == n);
        }
        if h1.free.contains(n) {
            let k = choose|k: int| 0 <= k < h1.free.len() && h1.free[k] == n;
            assert(h.free[k] == n);
            assert(h.free.contains(n));
            if n == new {
                assert(h.free[k] == h.free[h.free.len() - 1]);
            }
        }
    }
    assert forall|k: int| 0 <= k < h1.free.len() implies #[trigger] h1.free[k] < h1.nbuckets by {
        assert(h1.free[k] == h.free[k]);
    }
    assert forall|k: int, l: int|
        0 <= k < h1.free.len() && 0 <= l < h1.free.len() && #[trigger] h1.free[k]
            == #[trigger] h1.free[l] implies k == l by {
        assert(h1.free[k] == h.free[k] && h1.free[l] == h.free[l]);
    }
}

/// A directory whose file grew well is stored as it was.
proof fn lemma_grown_stored(
    v: Vol,
    p: Pool,
    d: Dn,
    p1: Pool,
    d1: Dn,
    hblk: u64,
    h: Dh,
    bs: Buckets,
    new: u32,
    nblk: u64,
)
    requires
        stored(v, p.t, d.m, hblk, h, bs),
        grown_well(v, p, d, p1, d1, 1 + new, nblk),
        !h.table.contains(new),
    ensures
        stored(v, p1.t, d1.m, hblk, h, bs),
        nblk != hblk,
        forall|i: int|
            #![trigger h.table[i]]
            0 <= i < h.table.len() ==> dir::dir_addr(v, p1.t, d1.m, 1 + h.table[i]) != Ok::<
                u64,
                FsError,
            >(nblk) && dir::dir_addr(v, p1.t, d1.m, 1 + h.table[i]) == dir::dir_addr(
                v,
                p.t,
                d.m,
                1 + h.table[i],
            ),
{
    let (t, m, t1, m1) = (p.t, d.m, p1.t, d1.m);
    assert(dir::dir_addr(v, t1, m1, 0) == Ok::<u64, FsError>(hblk));
    assert forall|i: int|
        #![trigger h.table[i]]
        0 <= i < h.table.len() implies {
        &&& dir::dir_addr(v, t1, m1, 1 + h.table[i]) == dir::dir_addr(v, t, m, 1 + h.table[i])
        &&& dir::dir_addr(v, t1, m1, 1 + h.table[i]) != Ok::<u64, FsError>(nblk)
        &&& bucket_at(v, t1, m1, h.table[i], bs(h.table[i]))
        &&& dir::dir_addr(v, t1, m1, 1 + h.table[i]) != Ok::<u64, FsError>(hblk)
    } by {
        let b = h.table[i];
        assert(bucket_at(v, t, m, b, bs(b)));
        assert(h.table.contains(b));
        assert(dir::dir_addr(v, t1, m1, 1 + b) == dir::dir_addr(v, t, m, 1 + b));
    }
    assert forall|i: int, j: int|
        #![trigger h.table[i], h.table[j]]
        0 <= i < h.table.len() && 0 <= j < h.table.len() && h.table[i]
            != h.table[j] implies dir::dir_addr(v, t1, m1, 1 + h.table[i]) != dir::dir_addr(
        v,
        t1,
        m1,
        1 + h.table[j],
    ) by {
        assert(dir::dir_addr(v, t1, m1, 1 + h.table[i]) == dir::dir_addr(
            v,
            t,
            m,
            1 + h.table[i],
        ));
        assert(dir::dir_addr(v, t1, m1, 1 + h.table[j]) == dir::dir_addr(
            v,
            t,
            m,
            1 + h.table[j],
        ));
    }
}

/// Table numbers after a split.
proof fn lemma_split_table(table: Seq<u32>, b: u32, new: u32, bit: int, i0: int, i1: int)
    requires
        0 <= i0 < table.len(),
        0 <= i1 < table.len(),
        table[i0] == b,
        table[i1] == b,
        !record::bit_on(i0, bit),
        record::bit_on(i1, bit),
    ensures
        forall|n: u32| #[trigger]
            dir::split_table(table, b, new, bit).contains(n) == (table.contains(n) || n == new),
{
    let s = dir::split_table(table, b, new, bit);
    assert forall|n: u32| #[trigger] s.contains(n) == (table.contains(n) || n == new) by {
        if s.contains(n) {
            let k = choose|k: int| 0 <= k < s.len() && s[k] == n;
            assert(table.contains(table[k]));
        }
        if table.contains(n) {
            let k = choose|k: int| 0 <= k < table.len() && table[k] == n;
            if n == b {
                assert(s[i0] == b);
            } else {
                assert(s[k] == n);
            }
        }
        if n == new {
            assert(s[i1] == new);
        }
    }
}

/// The table after a split of the bucket at slot `i`.
pub open spec fn after_split(h: Dh, bs: Buckets, i: int) -> Dh {
    let b = h.table[i];
    let ld = bs(b).depth;
    let depth = if ld == h.depth {
        (h.depth + 1) as u8
    } else {
        h.depth
    };
    let table = if ld == h.depth {
        dir::doubled(h.table)
    } else {
        h.table
    };
    Dh {
        depth,
        table: dir::split_table(table, b, new_bucket(h), depth - 1 - ld),
        ..split_header(h)
    }
}

/// Table and buckets after a split.
#[verifier::rlimit(40)]
proof fn lemma_split_model(h: Dh, bs: Buckets, i: int) -> (r: (Dh, Buckets))
    requires
        dir_model::fits(h, bs),
        numbered(h),
        0 <= i < h.table.len(),
        h.free.len() > 0 || h.nbuckets < u32::MAX,
        bs(h.table[i]).depth == h.depth ==> h.depth < 31,
    ensures
        r.0 == after_split(h, bs, i),
        r.1 == dir_model::with_bucket(
            dir_model::with_bucket(
                bs,
                h.table[i],
                Bucket {
                    depth: bs(h.table[i]).depth + 1,
                    es: dir::with_bit(bs(h.table[i]).es, 63 - bs(h.table[i]).depth, false),
                },
            ),
            new_bucket(h),
            Bucket {
                depth: bs(h.table[i]).depth + 1,
                es: dir::with_bit(bs(h.table[i]).es, 63 - bs(h.table[i]).depth, true),
            },
        ),
        dir_model::fits(r.0, r.1),
        numbered(r.0),
        same_lookups(h, bs, r.0, r.1),
        forall|n: u32| #[trigger]
            r.0.table.contains(n) ==> h.table.contains(n) || n == new_bucket(h),
{
    let b = h.table[i];
    let ld = bs(b).depth;
    let es = bs(b).es;
    let new = new_bucket(h);
    lemma_new_bucket(h);
    let hd = if ld == h.depth {
        Dh { depth: (h.depth + 1) as u8, table: dir::doubled(h.table), ..h }
    } else {
        h
    };
    if ld == h.depth {
        dir_model::lemma_double(h, bs);
    }
    let bit = hd.depth - 1 - ld;
    let h1 = after_split(h, bs, i);
    assert forall|n: u32| #[trigger] hd.table.contains(n) == h.table.contains(n) by {
        if ld == h.depth {
            if hd.table.contains(n) {
                let k = choose|k: int| 0 <= k < hd.table.len() && hd.table[k] == n;
                assert(h.table[k / 2] == n);
            }
            if h.table.contains(n) {
                let k = choose|k: int| 0 <= k < h.table.len() && h.table[k] == n;
                assert(hd.table[2 * k] == n);
            }
        }
    }
    assert(h.table.contains(b));
    dir_model::lemma_split(hd, bs, b, new, h1.nbuckets, h1.free);
    let bs2 = dir_model::with_bucket(
        dir_model::with_bucket(
            bs,
            b,
            Bucket { depth: ld + 1, es: dir::with_bit(es, 63 - ld, false) },
        ),
        new,
        Bucket { depth: ld + 1, es: dir::with_bit(es, 63 - ld, true) },
    );
    let i0 = choose|k: int| 0 <= k < hd.table.len() && hd.table[k] == b;
    assert(hd.table[i0] == b);
    let (x0, x1) = dir_model::lemma_both_halves(hd, bs, i0);
    lemma_split_table(hd.table, b, new, bit, x0, x1);
    lemma_numbered_split(h, h1);
    assert(same_lookups(h, bs, h1, bs2)) by {
        assert forall|hash: u64, name: Seq<char>| #[trigger]
            dir_model::lookup(h1, bs2, hash, name) == dir_model::lookup(h, bs, hash, name) by {
            assert(dir_model::lookup(hd, bs, hash, name) == dir_model::lookup(h, bs, hash, name));
        }
    }
    (h1, bs2)
}

/// Splitting a bucket: the directory stays in order, and every search finds
/// what it found.
#[verifier::rlimit(40)]
pub proof fn lemma_split_stored(
    v: Vol,
    p: Pool,
    ag: u32,
    d: Dn,
    hblk: u64,
    h: Dh,
    bs: Buckets,
    i: int,
) -> (r: (Dh, Buckets))
    requires
        v.bs >= 24,
        in_order(v, p.t, d.m, hblk, h, bs),
        0 <= i < h.table.len(),
        ({
            let (p1, d1, r1) = dir::block_ensured(v, p, ag, d, 1 + new_bucket(h));
            r1 matches Ok(nblk) ==> grown_well(v, p, d, p1, d1, 1 + new_bucket(h), nblk)
        }),
        dir::split(
            v,
            p,
            ag,
            d,
            hblk,
            h,
            h.table[i],
            dir::dir_addr(v, p.t, d.m, 1 + h.table[i])->Ok_0,
            bs(h.table[i]).depth as u8,
            bs(h.table[i]).es,
        ).2 is Ok,
    ensures
        ({
            let (p1, d1, _) = dir::split(
                v,
                p,
                ag,
                d,
                hblk,
                h,
                h.table[i],
                dir::dir_addr(v, p.t, d.m, 1 + h.table[i])->Ok_0,
                bs(h.table[i]).depth as u8,
                bs(h.table[i]).es,
            );
            in_order(v, p1.t, d1.m, hblk, r.0, r.1)
        }),
        same_lookups(h, bs, r.0, r.1),
{
    reveal(dir::split);
    let b = h.table[i];
    let ld = bs(b).depth;
    let es = bs(b).es;
    let new = new_bucket(h);
    let (p1, d1, r1) = dir::block_ensured(v, p, ag, d, 1 + new);
    let nblk = r1->Ok_0;
    let bblk = dir::dir_addr(v, p.t, d.m, 1 + b)->Ok_0;
    assert(bucket_at(v, p.t, d.m, b, bs(b)));
    lemma_new_bucket(h);
    lemma_grown_stored(v, p, d, p1, d1, hblk, h, bs, new, nblk);
    let m1 = d1.m;
    let (h1, bs2) = lemma_split_model(h, bs, i);
    let lo = Bucket { depth: ld + 1, es: dir::with_bit(es, 63 - ld, false) };
    let hi = Bucket { depth: ld + 1, es: dir::with_bit(es, 63 - ld, true) };
    let bs1 = dir_model::with_bucket(bs, b, lo);
    // the two buckets
    let t2 = dir::bucket_to(v, p1.t, bblk, (ld + 1) as u8, lo.es).0;
    lemma_stored_bucket(v, p1.t, m1, hblk, h, bs, i, (ld + 1) as u8, lo.es);
    lemma_bucket_addrs(v, p1.t, m1, bblk, 1 + b, (ld + 1) as u8, lo.es);
    let t3 = dir::bucket_to(v, t2, nblk, (ld + 1) as u8, hi.es).0;
    assert(dir::dir_addr(v, t2, m1, 1 + new) == dir::dir_addr(v, p1.t, m1, 1 + new));
    assert forall|k: int|
        #![trigger h.table[k]]
        0 <= k < h.table.len() && h.table[k] != new implies dir::dir_addr(
        v,
        t2,
        m1,
        1 + h.table[k],
    ) != Ok::<u64, FsError>(nblk) by {
        assert(dir::dir_addr(v, t2, m1, 1 + h.table[k]) == dir::dir_addr(
            v,
            p1.t,
            m1,
            1 + h.table[k],
        ));
    }
    lemma_store_bucket(v, t2, m1, hblk, h.table, bs1, new, nblk, (ld + 1) as u8, hi.es);
    assert(buckets_at(v, t3, m1, hblk, h1.table, bs2)) by {
        lemma_more_buckets(v, t3, m1, hblk, h.table, h1.table, bs2, new, nblk);
    }
    assert(dir::dir_addr(v, t3, m1, 0) == dir::dir_addr(v, t2, m1, 0));
    assert(dir::dir_addr(v, t2, m1, 0) == dir::dir_addr(v, p1.t, m1, 0));
    lemma_store_header(v, t3, m1, hblk, h1, bs2);
    (h1, bs2)
}

/// Storing a bucket leaves the mapping as it is.
proof fn lemma_bucket_addrs(
    v: Vol,
    t: Map<u64, Seq<u8>>,
    m: Mp,
    blk: u64,
    fb: int,
    depth: u8,
    es: Seq<Hent>,
)
    requires
        v.bs >= 24,
        0 <= fb,
        mapped_apart(v, t, m),
        dir::dir_addr(v, t, m, fb) == Ok::<u64, FsError>(blk),
        dir::bucket_to(v, t, blk, depth, es).1 is Ok,
    ensures
        forall|f: int|
            0 <= f ==> #[trigger] dir::dir_addr(
                v,
                dir::bucket_to(v, t, blk, depth, es).0,
                m,
                f,
            ) == dir::dir_addr(v, t, m, f),
{
    let t1 = dir::bucket_to(v, t, blk, depth, es).0;
    law_bucket_reads_back(v, t, blk, depth, es);
    assert(is_block(v, t, m, blk));
    assert(rest_kept(v, t, t1, m));
    lemma_mapped_apart(v, t, t1, m);
}

/// The buckets of a table that names one bucket more.
proof fn lemma_more_buckets(
    v: Vol,
    t: Map<u64, Seq<u8>>,
    m: Mp,
    hblk: u64,
    table: Seq<u32>,
    table1: Seq<u32>,
    bs: Buckets,
    new: u32,
    nblk: u64,
)
    requires
        buckets_at(v, t, m, hblk, table, bs),
        bucket_at(v, t, m, new, bs(new)),
        dir::dir_addr(v, t, m, 1 + new) == Ok::<u64, FsError>(nblk),
        nblk != hblk,
        forall|i: int|
            #![trigger table[i]]
            0 <= i < table.len() && table[i] != new ==> dir::dir_addr(v, t, m, 1 + table[i])
                != Ok::<u64, FsError>(nblk),
        forall|n: u32| #[trigger] table1.contains(n) ==> table.contains(n) || n == new,
    ensures
        buckets_at(v, t, m, hblk, table1, bs),
{
    assert forall|i: int|
        #![trigger table1[i]]
        0 <= i < table1.len() implies bucket_at(v, t, m, table1[i], bs(table1[i]))
        && dir::dir_addr(v, t, m, 1 + table1[i]) != Ok::<u64, FsError>(hblk) by {
        assert(table1.contains(table1[i]));
        if table1[i] != new {
            let k = choose|k: int| 0 <= k < table.len() && table[k] == table1[i];
            assert(bucket_at(v, t, m, table[k], bs(table[k])));
        }
    }
    assert forall|i: int, j: int|
        #![trigger table1[i], table1[j]]
        0 <= i < table1.len() && 0 <= j < table1.len() && table1[i]
            != table1[j] implies dir::dir_addr(v, t, m, 1 + table1[i]) != dir::dir_addr(
        v,
        t,
        m,
        1 + table1[j],
    ) by {
        assert(table1.contains(table1[i]) && table1.contains(table1[j]));
        if table1[i] != new && table1[j] != new {
            let k = choose|k: int| 0 <= k < table.len() && table[k] == table1[i];
            let l = choose|l: int| 0 <= l < table.len() && table[l] == table1[j];
            assert(table[k] != table[l]);
        } else if table1[i] != new {
            let k = choose|k: int| 0 <= k < table.len() && table[k] == table1[i];
            assert(table[k] != new);
        } else {
            let l = choose|l: int| 0 <= l < table.len() && table[l] == table1[j];
            assert(table[l] != new);
        }
    }
}

/// Every block that an insertion grew the directory file by grew it well.
pub open spec fn all_grown_well(v: Vol, p: Pool, ag: u32, d: Dn, new: Hent, tries: int) -> bool
    decreases tries,
{
    match dir::dh_of(v, p.t, d.m) {
        Err(_) => true,
        Ok((hblk, h)) => {
            let bno = dir::bucket_for(h, new.hash);
            match dir::bucket_of(v, p.t, d.m, bno) {
                Err(_) => true,
                Ok((bblk, ld, es)) => if bucket::fits_with(v.bs as int, es, new) || tries <= 0 {
                    true
                } else {
                    let (p1, d1, r1) = dir::block_ensured(v, p, ag, d, 1 + new_bucket(h));
                    let (p2, d2, _) = dir::split(v, p, ag, d, hblk, h, bno, bblk, ld, es);
                    (r1 matches Ok(nblk) ==> grown_well(
                        v,
                        p,
                        d,
                        p1,
                        d1,
                        1 + new_bucket(h),
                        nblk,
                    )) && all_grown_well(v, p2, ag, d2, new, tries - 1)
                },
            }
        },
    }
}

/// Inserting an entry in a hashed directory in order.
#[verifier::rlimit(40)]
pub proof fn lemma_hashed_inserted(
    v: Vol,
    p: Pool,
    ag: u32,
    d: Dn,
    hblk: u64,
    h: Dh,
    bs: Buckets,
    e: Hent,
    tries: int,
) -> (r: (Dh, Buckets))
    requires
        v.bs >= 24,
        in_order(v, p.t, d.m, hblk, h, bs),
        dir_model::lookup(h, bs, e.hash, e.name) is None,
        all_grown_well(v, p, ag, d, e, tries),
        dir::hashed_inserted(v, p, ag, d, e, tries).2 is Ok,
    ensures
        ({
            let (p1, d1, _) = dir::hashed_inserted(v, p, ag, d, e, tries);
            in_order(v, p1.t, d1.m, hblk, r.0, r.1)
        }),
        forall|hash: u64, name: Seq<char>| #[trigger]
            dir_model::lookup(r.0, r.1, hash, name) == if hash == e.hash && name == e.name {
                Some(e)
            } else {
                dir_model::lookup(h, bs, hash, name)
            },
    decreases tries,
{
    lemma_stored_reads(v, p.t, d.m, hblk, h, bs);
    bucket::lemma_slot_bound(e.hash, h.depth as int);
    let s = bucket::slot_of(e.hash, h.depth as int);
    let b = h.table[s];
    assert(bucket_at(v, p.t, d.m, b, bs(b)));
    let ld = bs(b).depth as u8;
    let es = bs(b).es;
    if bucket::fits_with(v.bs as int, es, e) {
        dir_model::lemma_insert(h, bs, e);
        lemma_stored_bucket(v, p.t, d.m, hblk, h, bs, s, ld, es.push(e));
        let bs1 = dir_model::with_bucket(bs, b, Bucket { depth: ld as int, es: es.push(e) });
        assert(Bucket { depth: ld as int, es: es.push(e) } == (Bucket {
            es: es.push(e),
            ..bs(b)
        }));
        (h, bs1)
    } else {
        let (h1, bs1) = lemma_split_stored(v, p, ag, d, hblk, h, bs, s);
        let bblk = dir::dir_addr(v, p.t, d.m, 1 + b)->Ok_0;
        let (p1, d1, _) = dir::split(v, p, ag, d, hblk, h, b, bblk, ld, es);
        assert(dir_model::lookup(h1, bs1, e.hash, e.name) == dir_model::lookup(
            h,
            bs,
            e.hash,
            e.name,
        ));
        let (h2, bs2) = lemma_hashed_inserted(v, p1, ag, d1, hblk, h1, bs1, e, tries - 1);
        assert forall|hash: u64, name: Seq<char>| #[trigger]
            dir_model::lookup(h2, bs2, hash, name) == if hash == e.hash && name == e.name {
                Some(e)
            } else {
                dir_model::lookup(h, bs, hash, name)
            } by {
            assert(dir_model::lookup(h1, bs1, hash, name) == dir_model::lookup(h, bs, hash, name));
        }
        (h2, bs2)
    }
}

/// Inserting an entry in a hashed directory in order, whose file grew well
/// where it had to: the entry is found under its name, and every other name
/// finds what it found. The directory is in order again.
pub proof fn law_inserted_is_found(
    v: Vol,
    p: Pool,
    uuid: Seq<u8>,
    ag: u32,
    d: Dn,
    hblk: u64,
    h: Dh,
    bs: Buckets,
    e: Dirent,
    other: Seq<char>,
) -> (r: (Dh, Buckets))
    requires
        v.bs >= 24,
        d.m.format == FMT_EXTENT || d.m.format == FMT_TREE,
        in_order(v, p.t, d.m, hblk, h, bs),
        all_grown_well(v, p, ag, d, dir::hashed(uuid, e), dir::MAX_SPLITS as int),
        dir::inserted(v, p, uuid, ag, true, d, e).2 is Ok,
    ensures
        ({
            let (p1, d1, _) = dir::inserted(v, p, uuid, ag, true, d, e);
            &&& in_order(v, p1.t, d1.m, hblk, r.0, r.1)
            &&& dir::hashed_found(v, p1.t, uuid, d1.m, e.name) == Ok::<Option<Dirent>, FsError>(
                Some(e),
            )
            &&& other != e.name ==> dir::hashed_found(v, p1.t, uuid, d1.m, other)
                == dir::hashed_found(v, p.t, uuid, d.m, other)
        }),
{
    let x = dir::hashed(uuid, e);
    lemma_found(v, p.t, uuid, d.m, hblk, h, bs, e.name);
    lemma_found(v, p.t, uuid, d.m, hblk, h, bs, other);
    let (p1, d1, _) = dir::inserted(v, p, uuid, ag, true, d, e);
    let (h1, bs1) = lemma_hashed_inserted(v, p, ag, d, hblk, h, bs, x, dir::MAX_SPLITS as int);
    lemma_found(v, p1.t, uuid, d1.m, hblk, h1, bs1, e.name);
    lemma_found(v, p1.t, uuid, d1.m, hblk, h1, bs1, other);
    assert(dir_model::lookup(h1, bs1, x.hash, e.name) == Some(x));
    let oh = bucket::name_hash(uuid, other);
    assert(other != e.name ==> dir_model::lookup(h1, bs1, oh, other) == dir_model::lookup(
        h,
        bs,
        oh,
        other,
    ));
    (h1, bs1)
}

// --- embedded directories -----------------------------------------------------

/// What a search in an embedded directory finds.
pub proof fn lemma_entry_named(es: Seq<Dirent>, name: Seq<char>, i: int)
    requires
        0 <= i,
    ensures
        match dir::entry_named(es, name, i) {
            Some(k) => i <= k < es.len() && es[k].name == name,
            None => forall|j: int| i <= j < es.len() ==> (#[trigger] es[j]).name != name,
        },
    decreases es.len() - i,
{
    if i < es.len() && es[i].name != name {
        lemma_entry_named(es, name, i + 1);
    }
}

/// No two entries have the same name.
pub open spec fn names_once(es: Seq<Dirent>) -> bool {
    forall|i: int, j: int|
        0 <= i < es.len() && 0 <= j < es.len() && (#[trigger] es[i]).name == (
        #[trigger] es[j]).name ==> i == j
}

/// An embedded (or empty) directory in order: whole entries, each name once.
pub open spec fn embedded(m: Mp) -> bool {
    ||| m.format == FMT_EMPTY
    ||| m.format == FMT_EMBED && dirent::dir_clean(m.payload) && names_once(
        dirent::dir_entries_of(m.payload),
    )
}

/// Entries as they are parsed have an inode.
proof fn lemma_inos(p: Seq<u8>, off: int)
    ensures
        forall|i: int|
            0 <= i < dirent::entries_from(p, off).len() ==> (#[trigger] dirent::entries_from(
                p,
                off,
            )[i]).ino != 0,
    decreases p.len() - off,
{
    if dirent::entry_ok(p, off) {
        let next = off + 10 + 2 * p[off + 9];
        lemma_inos(p, next);
        let rest = dirent::entries_from(p, next);
        assert forall|i: int| 0 <= i < dirent::entries_from(p, off).len() implies (
        #[trigger] dirent::entries_from(p, off)[i]).ino != 0 by {
            if i > 0 {
                assert(dirent::entries_from(p, off)[i] == rest[i - 1]);
            }
        }
    }
}

/// A search that found `e`.
pub open spec fn found_entry(e: Dirent) -> Result<Option<Dirent>, FsError> {
    Ok(Some(e))
}

/// The payload that an entry is appended to.
pub open spec fn room(m: Mp) -> Seq<u8> {
    if m.format == FMT_EMPTY {
        fmt::zeros(INODE_PAYLOAD as nat)
    } else {
        m.payload
    }
}

/// Inserting in an embedded directory that has room: the list gets the entry as
/// its last, it is found under its name, every other name finds what it found, and
/// the directory is in order again.
pub proof fn law_embedded_insert(
    v: Vol,
    p: Pool,
    uuid: Seq<u8>,
    ag: u32,
    d: Dn,
    e: Dirent,
    other: Seq<char>,
)
    requires
        embedded(d.m),
        e.ino != 0,
        dirent::dir_appended(room(d.m), e) is Ok,
        dir::inserted(v, p, uuid, ag, true, d, e).2 is Ok,
    ensures
        ({
            let (p1, d1, r) = dir::inserted(v, p, uuid, ag, true, d, e);
            &&& embedded(d1.m)
            &&& dir::listed(v, p.t, true, d.m) is Ok
            &&& dir::listed(v, p1.t, true, d1.m) == Ok::<Seq<Dirent>, FsError>(
                dir::listed(v, p.t, true, d.m)->Ok_0.push(e),
            )
            &&& dir::found(v, p1.t, uuid, true, d1.m, e.name) == found_entry(e)
            &&& other != e.name ==> dir::found(v, p1.t, uuid, true, d1.m, other) == dir::found(
                v,
                p.t,
                uuid,
                true,
                d.m,
                other,
            )
        }),
{
    let pl = room(d.m);
    dirent::lemma_zero_payload_clean(fmt::zeros(INODE_PAYLOAD as nat));
    let es = dirent::dir_entries_of(pl);
    let (_, d1, _) = dir::inserted(v, p, uuid, ag, true, d, e);
    dirent::law_dir_append_then_parse(pl, e);
    let es1 = es.push(e);
    assert(dirent::dir_entries_of(d1.m.payload) == es1);
    lemma_entry_named(es, e.name, 0);
    lemma_entry_named(es, other, 0);
    lemma_entry_named(es1, e.name, 0);
    lemma_entry_named(es1, other, 0);
    assert(es1[es.len() as int] == e);
    assert forall|i: int| 0 <= i < es.len() implies es1[i] == #[trigger] es[i] by {}
    assert(dir::entry_named(es, e.name, 0) is None);
    assert(names_once(es1)) by {
        assert forall|i: int, j: int|
            0 <= i < es1.len() && 0 <= j < es1.len() && (#[trigger] es1[i]).name == (
            #[trigger] es1[j]).name implies i == j by {
            if i < es.len() {
                assert(es1[i] == es[i]);
            }
            if j < es.len() {
                assert(es1[j] == es[j]);
            }
        }
    }
    if other != e.name {
        match dir::entry_named(es, other, 0) {
            Some(k) => {
                assert(es1[k] == es[k]);
            },
            None => {
                if let Some(k) = dir::entry_named(es1, other, 0) {
                    if k < es.len() {
                        assert(es1[k] == es[k]);
                    }
                }
            },
        }
    }
}

/// Entries packed again read back.
proof fn lemma_repacked(p: Seq<u8>, es: Seq<Dirent>, k: int)
    requires
        dirent::dir_clean(p),
        0 <= k <= es.len(),
        forall|i: int| 0 <= i < es.len() ==> (#[trigger] es[i]).ino != 0,
        dirent::dir_entries_of(p) == es.take(k),
    ensures
        dir::repacked(p, es, k) matches Ok(q) ==> dirent::dir_clean(q) && dirent::dir_entries_of(q)
            == es,
    decreases es.len() - k,
{
    if k >= es.len() {
        assert(es.take(k) =~= es);
    } else {
        dirent::law_dir_append_then_parse(p, es[k]);
        if let Ok(q) = dirent::dir_appended(p, es[k]) {
            assert(es.take(k).push(es[k]) =~= es.take(k + 1));
            lemma_repacked(q, es, k + 1);
        }
    }
}

/// Removing a name from an embedded directory: what is returned was found
/// under that name; afterwards nothing is; every other name finds what it
/// found; the list is one entry shorter; and the directory is in order again.
pub proof fn law_embedded_remove(
    v: Vol,
    p: Pool,
    uuid: Seq<u8>,
    d: Dn,
    name: Seq<char>,
    other: Seq<char>,
)
    requires
        embedded(d.m),
        d.m.payload.len() == INODE_PAYLOAD,
    ensures
        ({
            let (p1, d1, r) = dir::removed(v, p, uuid, true, d, name);
            r matches Ok(e) ==> {
                &&& embedded(d1.m)
                &&& dir::listed(v, p.t, true, d.m) is Ok
                &&& dir::listed(v, p1.t, true, d1.m) is Ok
                &&& dir::listed(v, p1.t, true, d1.m)->Ok_0.len() == dir::listed(
                    v,
                    p.t,
                    true,
                    d.m,
                )->Ok_0.len() - 1
                &&& dir::found(v, p.t, uuid, true, d.m, name) == Ok::<Option<Dirent>, FsError>(
                    Some(e),
                )
                &&& dir::found(v, p1.t, uuid, true, d1.m, name) == Ok::<Option<Dirent>, FsError>(
                    None,
                )
                &&& other != name ==> dir::found(v, p1.t, uuid, true, d1.m, other) == dir::found(
                    v,
                    p.t,
                    uuid,
                    true,
                    d.m,
                    other,
                )
            }
        }),
{
    let (p1, d1, r) = dir::removed(v, p, uuid, true, d, name);
    if r is Ok {
        let es = dirent::dir_entries_of(d.m.payload);
        let k = dir::entry_named(es, name, 0)->Some_0;
        let es1 = es.remove(k);
        let zero = fmt::zeros(INODE_PAYLOAD as nat);
        lemma_entry_named(es, name, 0);
        lemma_entry_named(es, other, 0);
        lemma_inos(d.m.payload, 0);
        dirent::lemma_zero_payload_clean(zero);
        assert forall|i: int| 0 <= i < es1.len() implies #[trigger] es1[i] == es[if i < k {
            i
        } else {
            i + 1
        }] by {}
        assert(es1.take(0) =~= Seq::empty());
        lemma_repacked(zero, es1, 0);
        lemma_entry_named(es1, name, 0);
        lemma_entry_named(es1, other, 0);
        assert(names_once(es1)) by {
            assert forall|i: int, j: int|
                0 <= i < es1.len() && 0 <= j < es1.len() && (#[trigger] es1[i]).name == (
                #[trigger] es1[j]).name implies i == j by {
                let i0 = if i < k { i } else { i + 1 };
                let j0 = if j < k { j } else { j + 1 };
                assert(es1[i] == es[i0] && es1[j] == es[j0]);
            }
        }
        if let Some(j) = dir::entry_named(es1, name, 0) {
            let j0 = if j < k { j } else { j + 1 };
            assert(es1[j] == es[j0]);
            assert(es[j0].name == es[k].name);
        }
        if other != name {
            match dir::entry_named(es, other, 0) {
                Some(j) => {
                    let j1 = if j < k { j } else { j - 1 };
                    assert(es1[j1] == es[j]);
                    let n = dir::entry_named(es1, other, 0)->Some_0;
                    assert(es1[n].name == es1[j1].name);
                },
                None => {
                    if let Some(j) = dir::entry_named(es1, other, 0) {
                        assert(es1[j] == es[if j < k { j } else { j + 1 }]);
                    }
                },
            }
        }
        if es.len() == 1 {
            assert(es1.len() == 0);
        }
    }
}

} // verus!
