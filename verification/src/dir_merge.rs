//! What fits into a bucket, and that merging the buckets of a directory in order
//! succeeds.

use crate::bucket::{Hent, BK_HDR, DH_HDR};
use crate::dir::{Dh, Pair};
use crate::dir_model::Buckets;
use crate::error::FsError;
use crate::mapping::Mp;
use crate::vol::Vol;
use vstd::prelude::*;

use crate::bucket;
use crate::dir;
use crate::dir_counts;
use crate::dir_laws;
use crate::dir_model;
use crate::fmt;
use crate::record;
use crate::utf16;
use crate::vol;

verus! {

/// The header has room for its table and for the number of every bucket.
pub open spec fn roomy(v: Vol, h: Dh) -> bool {
    DH_HDR + 4 * h.table.len() + 4 * h.nbuckets <= v.bs && h.nbuckets <= u16::MAX
}

/// Different numbers below `n` are at most `n`.
proof fn lemma_few(s: Seq<u32>, n: int)
    requires
        0 <= n,
        forall|k: int| 0 <= k < s.len() ==> #[trigger] s[k] < n,
        forall|k: int, l: int|
            0 <= k < s.len() && 0 <= l < s.len() && #[trigger] s[k] == #[trigger] s[l] ==> k == l,
    ensures
        s.len() <= n,
    decreases n,
{
    if s.len() > 0 {
        assert(s[0] < n);
        if exists|k: int| 0 <= k < s.len() && s[k] == n - 1 {
            let k = choose|k: int| 0 <= k < s.len() && s[k] == n - 1;
            let r = s.remove(k);
            assert forall|j: int| 0 <= j < r.len() implies #[trigger] r[j] < n - 1 by {
                assert(r[j] == s[if j < k { j } else { j + 1 }]);
            }
            assert forall|j: int, l: int|
                0 <= j < r.len() && 0 <= l < r.len() && #[trigger] r[j]
                    == #[trigger] r[l] implies j == l by {
                assert(r[j] == s[if j < k { j } else { j + 1 }]);
                assert(r[l] == s[if l < k { l } else { l + 1 }]);
            }
            lemma_few(r, n - 1);
        } else {
            lemma_few(s, n - 1);
        }
    }
}

/// A list of free buckets has none twice, so it is no longer than there are buckets.
proof fn lemma_free_few(h: Dh)
    requires
        dir_laws::numbered(h),
    ensures
        h.free.len() <= h.nbuckets,
{
    lemma_few(h.free, h.nbuckets as int);
}

/// The size of two lists of entries together.
proof fn lemma_size_both(a: Seq<Hent>, b: Seq<Hent>)
    ensures
        bucket::hents_size(a + b) == bucket::hents_size(a) + bucket::hents_size(b),
    decreases b.len(),
{
    if b.len() == 0 {
        assert(a + b =~= a);
    } else {
        lemma_size_both(a, b.drop_last());
        assert((a + b).drop_last() =~= a + b.drop_last());
    }
}

/// Every entry takes 24 bytes at least.
proof fn lemma_size_least(es: Seq<Hent>)
    ensures
        24 * es.len() <= bucket::hents_size(es),
    decreases es.len(),
{
    if es.len() > 0 {
        lemma_size_least(es.drop_last());
    }
}

/// An entry takes no more than all of them.
proof fn lemma_size_of_one(es: Seq<Hent>, k: int)
    requires
        0 <= k < es.len(),
    ensures
        bucket::hent_size(es[k]) <= bucket::hents_size(es),
    decreases es.len(),
{
    lemma_size_least(es.drop_last());
    if k < es.len() - 1 {
        lemma_size_of_one(es.drop_last(), k);
        assert(es.drop_last()[k] == es[k]);
    }
}

/// A bucket holds one entry more exactly where its header, its entries and the new one
/// take no more bytes than the block has.
pub proof fn law_bucket_holds_what_fits(bs: int, es: Seq<Hent>, e: Hent)
    requires
        24 <= bs <= 0x2_0000,
    ensures
        bucket::bucket_ok(bs, es.push(e)) <==> BK_HDR + bucket::hents_size(es) + bucket::hent_size(
            e,
        ) <= bs,
{
    let all = es.push(e);
    assert(all.drop_last() =~= es);
    lemma_size_least(all);
    if BK_HDR + bucket::hents_size(all) <= bs {
        assert forall|k: int| 0 <= k < all.len() implies utf16::encode_utf16(
            (#[trigger] all[k]).name,
        ).len() <= u16::MAX by {
            lemma_size_of_one(all, k);
        }
    }
}

/// Looking for a pair in a directory in order fails at no slot.
proof fn lemma_pair_ok(
    v: Vol,
    t: Map<u64, Seq<u8>>,
    m: Mp,
    hblk: u64,
    h: Dh,
    bs: Buckets,
    i: int,
)
    requires
        dir_laws::in_order(v, t, m, hblk, h, bs),
        0 <= i < h.table.len(),
    ensures
        dir::pair_at(v, t, m, h, i) is Ok,
{
    reveal(dir::pair_at);
    dir_laws::lemma_stored_reads(v, t, m, hblk, h, bs);
    let ld = bs(h.table[i]).depth;
    if ld > 0 {
        dir_model::lemma_flipped(i, h.depth as int, ld);
        let j = dir::flipped(i, h.depth - ld);
        assert(0 <= j < h.table.len());
        assert(dir::bucket_of(v, t, m, h.table[j]) is Ok);
    }
}

proof fn lemma_pairs_ok(
    v: Vol,
    t: Map<u64, Seq<u8>>,
    m: Mp,
    hblk: u64,
    h: Dh,
    bs: Buckets,
    i: int,
) -> (k: int)
    requires
        dir_laws::in_order(v, t, m, hblk, h, bs),
        0 <= i,
    ensures
        dir::first_pair(v, t, m, h, i) matches Ok(o) && (o matches Some(x) ==> i <= k
            < h.table.len() && dir::pair_at(v, t, m, h, k) == Ok::<Option<Pair>, FsError>(Some(x))),
    decreases h.table.len() - i,
{
    if i >= h.table.len() {
        i
    } else {
        lemma_pair_ok(v, t, m, hblk, h, bs, i);
        if dir::pair_at(v, t, m, h, i)->Ok_0 is None {
            lemma_pairs_ok(v, t, m, hblk, h, bs, i + 1)
        } else {
            i
        }
    }
}

/// The names of a bucket that was read are short enough to be written.
proof fn lemma_names_short(v: Vol, t: Map<u64, Seq<u8>>, m: Mp, h: Dh, bs: Buckets, hblk: u64, i: int)
    requires
        dir_laws::stored(v, t, m, hblk, h, bs),
        0 <= i < h.table.len(),
    ensures
        ({
            let es = bs(h.table[i]).es;
            forall|k: int|
                0 <= k < es.len() ==> utf16::encode_utf16((#[trigger] es[k]).name).len()
                    <= u16::MAX
        }),
{
    let b = h.table[i];
    assert(dir_laws::bucket_at(v, t, m, b, bs(b)));
    let bytes = vol::rd(v, t, dir::dir_addr(v, t, m, 1 + b)->Ok_0)->Ok_0;
    dir_counts::lemma_read_size(bytes, 24, fmt::u16_at(bytes, 18) as int);
}

/// A pair that was found can be merged.
proof fn lemma_pair_merged_ok(
    v: Vol,
    t: Map<u64, Seq<u8>>,
    m: Mp,
    hblk: u64,
    h: Dh,
    bs: Buckets,
    i: int,
    x: Pair,
)
    requires
        24 <= v.bs <= 0x10_0000,
        dir_laws::in_order(v, t, m, hblk, h, bs),
        roomy(v, h),
        0 <= i < h.table.len(),
        dir::pair_at(v, t, m, h, i) == Ok::<Option<Pair>, FsError>(Some(x)),
    ensures
        dir::pair_merged(v, t, hblk, h, x).1 is Ok,
{
    reveal(dir::pair_at);
    dir_laws::lemma_stored_reads(v, t, m, hblk, h, bs);
    let b = h.table[i];
    let ld = bs(b).depth;
    let j = dir::flipped(i, h.depth - ld);
    dir_model::lemma_flipped(i, h.depth as int, ld);
    let b2 = h.table[j];
    assert(dir_laws::bucket_at(v, t, m, b, bs(b)));
    assert(dir_laws::bucket_at(v, t, m, b2, bs(b2)));
    assert(x.bno == b && x.bno2 == b2 && x.es == bs(b).es && x.es2 == bs(b2).es && b != b2);
    lemma_names_short(v, t, m, h, bs, hblk, i);
    lemma_names_short(v, t, m, h, bs, hblk, j);
    assert(h.table.contains(h.table[i]) && h.table.contains(h.table[j]));
    dir_laws::lemma_numbered_merge(h, b, b2);
    lemma_written_ok(v, t, hblk, h, x);
}

/// Writing a pair as one bucket succeeds.
proof fn lemma_written_ok(v: Vol, t: Map<u64, Seq<u8>>, hblk: u64, h: Dh, x: Pair)
    requires
        24 <= v.bs <= 0x10_0000,
        roomy(v, h),
        BK_HDR + bucket::hents_size(x.es) + bucket::hents_size(x.es2) <= v.bs,
        forall|k: int|
            0 <= k < x.es.len() ==> utf16::encode_utf16((#[trigger] x.es[k]).name).len()
                <= u16::MAX,
        forall|k: int|
            0 <= k < x.es2.len() ==> utf16::encode_utf16((#[trigger] x.es2[k]).name).len()
                <= u16::MAX,
        dir_laws::numbered(
            Dh { table: dir::replaced(h.table, x.bno2, x.bno), free: h.free.push(x.bno2), ..h },
        ),
    ensures
        dir::pair_merged(v, t, hblk, h, x).1 is Ok,
{
    reveal(dir::pair_merged);
    reveal(dir::bucket_to);
    reveal(dir::dh_to);
    let h1 = Dh { table: dir::replaced(h.table, x.bno2, x.bno), free: h.free.push(x.bno2), ..h };
    let both = x.es + x.es2;
    lemma_size_both(x.es, x.es2);
    lemma_size_least(both);
    lemma_free_few(h1);
    assert(bucket::bucket_ok(v.bs as int, both)) by {
        assert forall|k: int| 0 <= k < both.len() implies utf16::encode_utf16(
            (#[trigger] both[k]).name,
        ).len() <= u16::MAX by {
            if k < x.es.len() {
                assert(both[k] == x.es[k]);
            } else {
                assert(both[k] == x.es2[k - x.es.len()]);
            }
        }
    }
    assert(bucket::bucket_ok(v.bs as int, Seq::empty()));
    assert(dir::dh_ok(v.bs as int, h1));
}

/// A round of merging succeeds.
proof fn lemma_round_ok(v: Vol, t: Map<u64, Seq<u8>>, m: Mp, hblk: u64, h: Dh, bs: Buckets)
    requires
        24 <= v.bs <= 0x10_0000,
        dir_laws::in_order(v, t, m, hblk, h, bs),
        roomy(v, h),
    ensures
        dir::merge_round(v, t, m).1 is Ok,
{
    reveal(dir::merge_round);
    reveal(dir::dh_to);
    dir_laws::lemma_stored_reads(v, t, m, hblk, h, bs);
    if h.depth > 0 {
        let k = lemma_pairs_ok(v, t, m, hblk, h, bs, 0);
        match dir::first_pair(v, t, m, h, 0)->Ok_0 {
            Some(x) => {
                lemma_pair_merged_ok(v, t, m, hblk, h, bs, k, x);
            },
            None => {
                lemma_free_few(h);
            },
        }
    }
}

proof fn lemma_rounds_ok(
    v: Vol,
    t: Map<u64, Seq<u8>>,
    m: Mp,
    hblk: u64,
    h: Dh,
    bs: Buckets,
    rounds: int,
)
    requires
        24 <= v.bs <= 0x10_0000,
        dir_laws::in_order(v, t, m, hblk, h, bs),
        roomy(v, h),
        rounds > dir_laws::to_merge(h),
    ensures
        dir::merged(v, t, m, rounds).1 is Ok,
    decreases rounds,
{
    lemma_free_few(h);
    lemma_round_ok(v, t, m, hblk, h, bs);
    let (h1, bs1) = dir_laws::lemma_merge_round(v, t, m, hblk, h, bs);
    let (t1, r1) = dir::merge_round(v, t, m);
    if r1 == Ok::<bool, FsError>(true) {
        lemma_rounds_ok(v, t1, m, hblk, h1, bs1, rounds - 1);
    }
}

/// A power of two exceeds its exponent.
proof fn lemma_two_to(k: int)
    requires
        0 <= k,
    ensures
        record::two_to(k) > k,
    decreases k,
{
    if k > 0 {
        lemma_two_to(k - 1);
    }
}

/// Merging the buckets of a directory in order ends, and succeeds, where the header has
/// room for the numbers of the buckets that come free.
pub proof fn lemma_merged_ok(v: Vol, t: Map<u64, Seq<u8>>, m: Mp, hblk: u64, h: Dh, bs: Buckets)
    requires
        24 <= v.bs <= 0x10_0000,
        dir_laws::in_order(v, t, m, hblk, h, bs),
        roomy(v, h),
    ensures
        dir::merged(v, t, m, v.bs as int).1 is Ok,
{
    lemma_two_to(h.depth as int);
    lemma_rounds_ok(v, t, m, hblk, h, bs, v.bs as int);
}

} // verus!
