//! Hashed directories apart from where they are stored: a table and its
//! buckets, when they are sound, which entry a name finds, and what inserting,
//! removing, splitting and merging do to that.

use crate::bucket::Hent;
use crate::dir::Dh;
use vstd::prelude::*;

use crate::bucket;
use crate::dir;
use crate::record;

verus! {

/// A bucket: its local depth and its entries.
#[verifier::ext_equal]
pub struct Bucket {
    pub depth: int,
    pub es: Seq<Hent>,
}

/// The buckets of a directory, by number.
pub type Buckets = spec_fn(u32) -> Bucket;

/// No two entries have the same hash and name.
pub open spec fn once(es: Seq<Hent>) -> bool {
    forall|i: int, j: int|
        0 <= i < es.len() && 0 <= j < es.len() && (#[trigger] es[i]).hash == (
        #[trigger] es[j]).hash && es[i].name == es[j].name ==> i == j
}

/// The slots of a bucket of depth `ld` in a table of depth `depth` that holds
/// slot `i`: those with the same top `ld` bits.
pub open spec fn prefix(i: int, depth: int, ld: int) -> int {
    i / record::two_to(depth - ld)
}

/// Table and buckets fit each other: each bucket has the slots that its local
/// depth gives it, and the entries whose hashes lead to these, each once.
pub open spec fn fits(h: Dh, bs: Buckets) -> bool {
    &&& h.depth <= 31
    &&& h.table.len() == record::two_to(h.depth as int)
    &&& forall|i: int|
        #![trigger h.table[i]]
        0 <= i < h.table.len() ==> {
            let b = bs(h.table[i]);
            &&& 0 <= b.depth <= h.depth
            &&& once(b.es)
            &&& forall|k: int|
                0 <= k < b.es.len() ==> dir::bucket_for(h, (#[trigger] b.es[k]).hash) == h.table[i]
        }
    &&& forall|i: int, j: int|
        #![trigger h.table[i], h.table[j]]
        0 <= i < h.table.len() && 0 <= j < h.table.len() ==> (h.table[i] == h.table[j]) == (prefix(
            i,
            h.depth as int,
            bs(h.table[i]).depth,
        ) == prefix(j, h.depth as int, bs(h.table[i]).depth))
}

/// The entry with that hash and name.
pub open spec fn lookup(h: Dh, bs: Buckets, hash: u64, name: Seq<char>) -> Option<Hent> {
    let es = bs(dir::bucket_for(h, hash)).es;
    match dir::hent_named(es, hash, name, 0) {
        None => None,
        Some(i) => Some(es[i]),
    }
}

// --- entries ------------------------------------------------------------------

/// What a search in a bucket finds.
pub proof fn lemma_named(es: Seq<Hent>, hash: u64, name: Seq<char>, i: int)
    requires
        0 <= i,
    ensures
        match dir::hent_named(es, hash, name, i) {
            Some(k) => i <= k < es.len() && es[k].hash == hash && es[k].name == name,
            None => forall|k: int|
                i <= k < es.len() ==> !((#[trigger] es[k]).hash == hash && es[k].name == name),
        },
    decreases es.len() - i,
{
    if i < es.len() && !(es[i].hash == hash && es[i].name == name) {
        lemma_named(es, hash, name, i + 1);
    }
}

/// Where an entry stands once, a search finds it.
pub proof fn lemma_named_at(es: Seq<Hent>, hash: u64, name: Seq<char>, k: int)
    requires
        once(es),
        0 <= k < es.len(),
        es[k].hash == hash,
        es[k].name == name,
    ensures
        dir::hent_named(es, hash, name, 0) == Some(k),
{
    lemma_named(es, hash, name, 0);
}

/// One entry more, with a name that is not there yet.
proof fn lemma_named_push(es: Seq<Hent>, e: Hent, hash: u64, name: Seq<char>)
    requires
        once(es),
        dir::hent_named(es, e.hash, e.name, 0) is None,
    ensures
        once(es.push(e)),
        dir::hent_named(es.push(e), hash, name, 0) == if hash == e.hash && name == e.name {
            Some(es.len() as int)
        } else {
            dir::hent_named(es, hash, name, 0)
        },
{
    let s = es.push(e);
    lemma_named(es, e.hash, e.name, 0);
    lemma_named(es, hash, name, 0);
    lemma_named(s, hash, name, 0);
    assert forall|i: int, j: int|
        0 <= i < s.len() && 0 <= j < s.len() && (#[trigger] s[i]).hash == (#[trigger] s[j]).hash
            && s[i].name == s[j].name implies i == j by {
        if i < es.len() {
            assert(s[i] == es[i]);
        }
        if j < es.len() {
            assert(s[j] == es[j]);
        }
    }
    if hash == e.hash && name == e.name {
        assert(s[es.len() as int] == e);
        lemma_named_at(s, hash, name, es.len() as int);
    } else {
        match dir::hent_named(es, hash, name, 0) {
            Some(k) => {
                assert(s[k] == es[k]);
                lemma_named_at(s, hash, name, k);
            },
            None => {
                if let Some(k) = dir::hent_named(s, hash, name, 0) {
                    if k < es.len() {
                        assert(s[k] == es[k]);
                    }
                }
            },
        }
    }
}

/// What a search finds among other entries that hold the same.
proof fn lemma_named_same(a: Seq<Hent>, b: Seq<Hent>, hash: u64, name: Seq<char>)
    requires
        once(a),
        once(b),
        forall|e: Hent|
            e.hash == hash && e.name == name ==> (#[trigger] a.contains(e)) == b.contains(e),
    ensures
        match (dir::hent_named(a, hash, name, 0), dir::hent_named(b, hash, name, 0)) {
            (Some(i), Some(j)) => a[i] == b[j],
            (None, None) => true,
            _ => false,
        },
{
    lemma_named(a, hash, name, 0);
    lemma_named(b, hash, name, 0);
    if let Some(i) = dir::hent_named(a, hash, name, 0) {
        assert(a.contains(a[i]));
        let j = choose|j: int| 0 <= j < b.len() && b[j] == a[i];
        lemma_named_at(b, hash, name, j);
    } else if let Some(j) = dir::hent_named(b, hash, name, 0) {
        assert(b.contains(b[j]));
        assert(a.contains(b[j]));
    }
}

// --- one bucket changed -------------------------------------------------------

/// The buckets with bucket `b` replaced.
pub open spec fn with_bucket(bs: Buckets, b: u32, x: Bucket) -> Buckets {
    |n: u32|
        if n == b {
            x
        } else {
            bs(n)
        }
}

/// Inserting an entry: it is found, and every other search finds what it
/// found.
pub proof fn lemma_insert(h: Dh, bs: Buckets, e: Hent)
    requires
        fits(h, bs),
        lookup(h, bs, e.hash, e.name) is None,
    ensures
        ({
            let b = dir::bucket_for(h, e.hash);
            let bs1 = with_bucket(bs, b, Bucket { es: bs(b).es.push(e), ..bs(b) });
            &&& fits(h, bs1)
            &&& forall|hash: u64, name: Seq<char>| #[trigger]
                lookup(h, bs1, hash, name) == if hash == e.hash && name == e.name {
                    Some(e)
                } else {
                    lookup(h, bs, hash, name)
                }
        }),
{
    let b = dir::bucket_for(h, e.hash);
    let es = bs(b).es;
    let bs1 = with_bucket(bs, b, Bucket { es: es.push(e), ..bs(b) });
    bucket::lemma_slot_bound(e.hash, h.depth as int);
    let s = bucket::slot_of(e.hash, h.depth as int);
    assert(h.table[s] == b);
    lemma_named_push(es, e, e.hash, e.name);
    assert forall|i: int|
        #![trigger h.table[i]]
        0 <= i < h.table.len() implies {
        let x = bs1(h.table[i]);
        &&& 0 <= x.depth <= h.depth
        &&& once(x.es)
        &&& forall|k: int|
            0 <= k < x.es.len() ==> dir::bucket_for(h, (#[trigger] x.es[k]).hash) == h.table[i]
    } by {
        let x = bs1(h.table[i]);
        let y = bs(h.table[i]);
        assert forall|k: int| 0 <= k < x.es.len() implies dir::bucket_for(
            h,
            (#[trigger] x.es[k]).hash,
        ) == h.table[i] by {
            if h.table[i] == b {
                if k < es.len() {
                    assert(x.es[k] == y.es[k]);
                }
            } else {
                assert(x.es[k] == y.es[k]);
            }
        }
    }
    assert forall|hash: u64, name: Seq<char>| #[trigger]
        lookup(h, bs1, hash, name) == if hash == e.hash && name == e.name {
            Some(e)
        } else {
            lookup(h, bs, hash, name)
        } by {
        lemma_named_push(es, e, hash, name);
        lemma_named(es, hash, name, 0);
    }
}

/// Removing an entry: it is not found any more, and every other search finds
/// what it found.
pub proof fn lemma_remove(h: Dh, bs: Buckets, hash0: u64, name0: Seq<char>)
    requires
        fits(h, bs),
        lookup(h, bs, hash0, name0) is Some,
    ensures
        ({
            let b = dir::bucket_for(h, hash0);
            let k = dir::hent_named(bs(b).es, hash0, name0, 0)->Some_0;
            let bs1 = with_bucket(bs, b, Bucket { es: bs(b).es.remove(k), ..bs(b) });
            &&& 0 <= k < bs(b).es.len()
            &&& fits(h, bs1)
            &&& forall|hash: u64, name: Seq<char>| #[trigger]
                lookup(h, bs1, hash, name) == if hash == hash0 && name == name0 {
                    None
                } else {
                    lookup(h, bs, hash, name)
                }
        }),
{
    let b = dir::bucket_for(h, hash0);
    let es = bs(b).es;
    let k = dir::hent_named(es, hash0, name0, 0)->Some_0;
    let es1 = es.remove(k);
    let bs1 = with_bucket(bs, b, Bucket { es: es1, ..bs(b) });
    lemma_named(es, hash0, name0, 0);
    bucket::lemma_slot_bound(hash0, h.depth as int);
    let s = bucket::slot_of(hash0, h.depth as int);
    assert(h.table[s] == b);
    assert forall|i: int| 0 <= i < es1.len() implies #[trigger] es1[i] == es[if i < k {
        i
    } else {
        i + 1
    }] by {}
    assert(once(es1)) by {
        assert forall|i: int, j: int|
            0 <= i < es1.len() && 0 <= j < es1.len() && (#[trigger] es1[i]).hash == (
            #[trigger] es1[j]).hash && es1[i].name == es1[j].name implies i == j by {
            let i0 = if i < k { i } else { i + 1 };
            let j0 = if j < k { j } else { j + 1 };
            assert(es1[i] == es[i0] && es1[j] == es[j0]);
        }
    }
    assert forall|i: int|
        #![trigger h.table[i]]
        0 <= i < h.table.len() implies {
        let x = bs1(h.table[i]);
        &&& 0 <= x.depth <= h.depth
        &&& once(x.es)
        &&& forall|k: int|
            0 <= k < x.es.len() ==> dir::bucket_for(h, (#[trigger] x.es[k]).hash) == h.table[i]
    } by {
        let x = bs1(h.table[i]);
        let y = bs(h.table[i]);
        assert forall|n: int| 0 <= n < x.es.len() implies dir::bucket_for(
            h,
            (#[trigger] x.es[n]).hash,
        ) == h.table[i] by {
            if h.table[i] == b {
                assert(x.es[n] == y.es[if n < k { n } else { n + 1 }]);
            } else {
                assert(x.es[n] == y.es[n]);
            }
        }
    }
    assert forall|hash: u64, name: Seq<char>| #[trigger]
        lookup(h, bs1, hash, name) == if hash == hash0 && name == name0 {
            None
        } else {
            lookup(h, bs, hash, name)
        } by {
        if dir::bucket_for(h, hash) == b {
            lemma_named(es1, hash, name, 0);
            lemma_named(es, hash, name, 0);
            if hash == hash0 && name == name0 {
                if let Some(j) = dir::hent_named(es1, hash, name, 0) {
                    let j0 = if j < k { j } else { j + 1 };
                    assert(es1[j] == es[j0]);
                    assert(es[k].hash == es[j0].hash);
                }
            } else {
                assert forall|e: Hent|
                    e.hash == hash && e.name == name implies (#[trigger] es.contains(e))
                    == es1.contains(e) by {
                    if es.contains(e) {
                        let j = choose|j: int| 0 <= j < es.len() && es[j] == e;
                        assert(j != k);
                        let j1 = if j < k { j } else { j - 1 };
                        assert(es1[j1] == e);
                    }
                    if es1.contains(e) {
                        let j = choose|j: int| 0 <= j < es1.len() && es1[j] == e;
                        let j0 = if j < k { j } else { j + 1 };
                        assert(es[j0] == e);
                    }
                }
                lemma_named_same(es, es1, hash, name);
            }
        }
    }
}

// --- powers of two ------------------------------------------------------------

/// Dropping bits in two steps.
proof fn lemma_div_div(x: int, i: int, j: int)
    requires
        0 <= x,
        0 <= i,
        0 <= j,
    ensures
        x / record::two_to(i) / record::two_to(j) == x / record::two_to(i + j),
        x / record::two_to(i) >= 0,
{
    bucket::lemma_two_to_sum(i, j);
    bucket::lemma_two_to_pos(i);
    bucket::lemma_two_to_pos(j);
    vstd::arithmetic::div_mod::lemma_div_denominator(x, record::two_to(i), record::two_to(j));
    vstd::arithmetic::div_mod::lemma_div_pos_is_pos(x, record::two_to(i));
}

/// A bit is the lowest of what is left when the bits below it are dropped.
proof fn lemma_bit_div(x: int, k: int)
    requires
        0 <= x,
        0 <= k,
    ensures
        record::bit_on(x, k) == (x / record::two_to(k) % 2 == 1),
    decreases k,
{
    if k > 0 {
        lemma_bit_div(x / 2, k - 1);
        lemma_div_div(x, 1, k - 1);
        assert(record::two_to(1) == 2) by {
            reveal_with_fuel(record::two_to, 2);
        }
    } else {
        assert(record::two_to(0) == 1);
        assert(x / 1 == x);
    }
}

/// The prefix of a hash's slot is the hash's slot in a smaller table.
proof fn lemma_prefix_slot(hash: u64, depth: int, ld: int)
    requires
        0 <= ld <= depth <= 64,
    ensures
        prefix(bucket::slot_of(hash, depth), depth, ld) == bucket::slot_of(hash, ld),
{
    lemma_div_div(hash as int, 64 - depth, depth - ld);
}

/// A prefix one bit shorter.
proof fn lemma_prefix_half(i: int, depth: int, ld: int)
    requires
        0 <= i,
        1 <= ld <= depth,
    ensures
        prefix(i, depth, ld - 1) == prefix(i, depth, ld) / 2,
        prefix(i, depth, ld) >= 0,
{
    lemma_div_div(i, depth - ld, 1);
    assert(record::two_to(1) == 2) by {
        reveal_with_fuel(record::two_to, 2);
    }
}

/// A slot of a table twice as large.
proof fn lemma_prefix_double(i: int, depth: int, ld: int)
    requires
        0 <= i,
        0 <= ld <= depth,
    ensures
        prefix(i, depth + 1, ld) == prefix(i / 2, depth, ld),
{
    lemma_div_div(i, 1, depth - ld);
    assert(record::two_to(1) == 2) by {
        reveal_with_fuel(record::two_to, 2);
    }
}

/// The slot that differs in the lowest bit of the prefix.
#[verifier::rlimit(40)]
pub proof fn lemma_flipped(i: int, depth: int, ld: int)
    requires
        1 <= ld <= depth,
        0 <= i < record::two_to(depth),
    ensures
        0 <= dir::flipped(i, depth - ld) < record::two_to(depth),
        prefix(dir::flipped(i, depth - ld), depth, ld) == if prefix(i, depth, ld) % 2 == 1 {
            prefix(i, depth, ld) - 1
        } else {
            prefix(i, depth, ld) + 1
        },
{
    let k = depth - ld;
    let w = record::two_to(k);
    let q = i / w;
    lemma_bit_div(i, k);
    bucket::lemma_two_to_pos(k);
    bucket::lemma_two_to_sum(ld, k);
    bucket::lemma_two_to_sum(1, ld - 1);
    assert(record::two_to(1) == 2) by {
        reveal_with_fuel(record::two_to, 2);
    }
    let n = record::two_to(ld);
    let half = record::two_to(ld - 1);
    assert(n == 2 * half);
    vstd::arithmetic::div_mod::lemma_fundamental_div_mod(i, w);
    assert(q < n) by (nonlinear_arith)
        requires
            i == w * q + i % w,
            i % w >= 0,
            i < n * w,
            w > 0,
    ;
    assert(q >= 0) by {
        lemma_div_div(i, k, 0);
    }
    let j = dir::flipped(i, k);
    let q1 = if q % 2 == 1 { q - 1 } else { q + 1 };
    assert(0 <= q1 < n);
    assert(j == w * q1 + i % w) by (nonlinear_arith)
        requires
            i == w * q + i % w,
            q1 == q - 1 && j == i - w || q1 == q + 1 && j == i + w,
    ;
    vstd::arithmetic::div_mod::lemma_fundamental_div_mod_converse(j, w, q1, i % w);
    assert(0 <= j < n * w) by (nonlinear_arith)
        requires
            j == w * q1 + i % w,
            0 <= i % w < w,
            0 <= q1 < n,
    ;
}

// --- merging ------------------------------------------------------------------

/// Two buckets that agree in all but the deepest bit become one: every search
/// finds what it found.
#[verifier::rlimit(40)]
pub proof fn lemma_merge(h: Dh, bs: Buckets, i: int, free: Seq<u32>)
    requires
        fits(h, bs),
        0 <= i < h.table.len(),
        1 <= bs(h.table[i]).depth,
        ({
            let j = dir::flipped(i, h.depth - bs(h.table[i]).depth);
            &&& h.table[j] != h.table[i]
            &&& bs(h.table[j]).depth == bs(h.table[i]).depth
        }),
    ensures
        ({
            let b = h.table[i];
            let b2 = h.table[dir::flipped(i, h.depth - bs(b).depth)];
            let h1 = Dh { table: dir::replaced(h.table, b2, b), free, ..h };
            let bs1 = with_bucket(
                bs,
                b,
                Bucket { depth: bs(b).depth - 1, es: bs(b).es + bs(b2).es },
            );
            &&& fits(h1, bs1)
            &&& forall|hash: u64, name: Seq<char>| #[trigger]
                lookup(h1, bs1, hash, name) == lookup(h, bs, hash, name)
        }),
{
    let depth = h.depth as int;
    let b = h.table[i];
    let ld = bs(b).depth;
    let j = dir::flipped(i, depth - ld);
    lemma_flipped(i, depth, ld);
    let b2 = h.table[j];
    let (es, es2) = (bs(b).es, bs(b2).es);
    let both = es + es2;
    let h1 = Dh { table: dir::replaced(h.table, b2, b), free, ..h };
    let bs1 = with_bucket(bs, b, Bucket { depth: ld - 1, es: both });
    assert(h1.table.len() == h.table.len());
    assert forall|x: int| 0 <= x < h.table.len() implies #[trigger] h1.table[x] == if h.table[x]
        == b2 {
        b
    } else {
        h.table[x]
    } by {}
    assert forall|hash: u64| #[trigger] dir::bucket_for(h1, hash) == if dir::bucket_for(h, hash)
        == b2 {
        b
    } else {
        dir::bucket_for(h, hash)
    } by {
        bucket::lemma_slot_bound(hash, depth);
    }
    assert forall|k: int| 0 <= k < both.len() implies {
        let x = dir::bucket_for(h, (#[trigger] both[k]).hash);
        if k < es.len() {
            x == b
        } else {
            x == b2
        }
    } by {
        if k < es.len() {
            assert(both[k] == es[k]);
        } else {
            assert(both[k] == es2[k - es.len()]);
        }
    }
    assert(once(both)) by {
        assert forall|x: int, y: int|
            0 <= x < both.len() && 0 <= y < both.len() && (#[trigger] both[x]).hash == (
            #[trigger] both[y]).hash && both[x].name == both[y].name implies x == y by {
            if x < es.len() && y < es.len() {
                assert(both[x] == es[x] && both[y] == es[y]);
            } else if x >= es.len() && y >= es.len() {
                assert(both[x] == es2[x - es.len()] && both[y] == es2[y - es.len()]);
            }
        }
    }
    assert forall|x: int|
        #![trigger h1.table[x]]
        0 <= x < h1.table.len() implies {
        let y = bs1(h1.table[x]);
        &&& 0 <= y.depth <= h1.depth
        &&& once(y.es)
        &&& forall|k: int|
            0 <= k < y.es.len() ==> dir::bucket_for(h1, (#[trigger] y.es[k]).hash) == h1.table[x]
    } by {
        let old_b = h.table[x];
        let y = bs1(h1.table[x]);
        assert forall|k: int| 0 <= k < y.es.len() implies dir::bucket_for(
            h1,
            (#[trigger] y.es[k]).hash,
        ) == h1.table[x] by {
            if h1.table[x] == b {
                assert(y.es[k] == both[k]);
            } else {
                assert(y.es[k] == bs(old_b).es[k]);
            }
        }
    }
    let q = prefix(i, depth, ld) / 2;
    assert forall|x: int| 0 <= x < h.table.len() implies (h.table[x] == b || #[trigger] h.table[x]
        == b2) == (prefix(x, depth, ld - 1) == q) by {
        lemma_prefix_half(x, depth, ld);
        lemma_prefix_half(i, depth, ld);
        assert((h.table[i] == h.table[x]) == (prefix(i, depth, ld) == prefix(x, depth, ld)));
        assert((h.table[j] == h.table[x]) == (prefix(j, depth, ld) == prefix(x, depth, ld)));
    }
    assert forall|x: int, y: int|
        #![trigger h1.table[x], h1.table[y]]
        0 <= x < h1.table.len() && 0 <= y < h1.table.len() implies (h1.table[x] == h1.table[y])
        == (prefix(x, depth, bs1(h1.table[x]).depth) == prefix(
        y,
        depth,
        bs1(h1.table[x]).depth,
    )) by {
        assert(h1.table[x] == if h.table[x] == b2 { b } else { h.table[x] });
        assert(h1.table[y] == if h.table[y] == b2 { b } else { h.table[y] });
        assert((h.table[x] == b || h.table[x] == b2) == (prefix(x, depth, ld - 1) == q));
        assert((h.table[y] == b || h.table[y] == b2) == (prefix(y, depth, ld - 1) == q));
        assert((h.table[x] == h.table[y]) == (prefix(x, depth, bs(h.table[x]).depth) == prefix(
            y,
            depth,
            bs(h.table[x]).depth,
        )));
    }
    assert forall|hash: u64, name: Seq<char>| #[trigger]
        lookup(h1, bs1, hash, name) == lookup(h, bs, hash, name) by {
        let o = dir::bucket_for(h, hash);
        bucket::lemma_slot_bound(hash, depth);
        assert(h.table[bucket::slot_of(hash, depth)] == o);
        if o == b || o == b2 {
            let part = bs(o).es;
            assert forall|e: Hent|
                e.hash == hash && e.name == name implies (#[trigger] part.contains(e))
                == both.contains(e) by {
                if part.contains(e) {
                    let k = choose|k: int| 0 <= k < part.len() && part[k] == e;
                    assert(both[if o == b { k } else { k + es.len() }] == e);
                }
                if both.contains(e) {
                    let k = choose|k: int| 0 <= k < both.len() && both[k] == e;
                    assert(dir::bucket_for(h, both[k].hash) == o);
                    if k < es.len() {
                        assert(part[k] == e);
                    } else {
                        assert(part[k - es.len()] == e);
                    }
                }
            }
            lemma_named_same(part, both, hash, name);
        }
    }
}

/// The header with half the table.
spec fn halved_header(h: Dh) -> Dh {
    Dh { depth: (h.depth - 1) as u8, table: dir::halved(h.table), ..h }
}

/// An entry of a halved table, and the depth of its bucket.
proof fn lemma_halved_entry(h: Dh, bs: Buckets, x: int)
    requires
        fits(h, bs),
        h.depth >= 1,
        dir::all_paired(h.table),
        0 <= 2 * x + 1 < h.table.len(),
    ensures
        dir::halved(h.table)[x] == h.table[2 * x],
        h.table[2 * x] == h.table[2 * x + 1],
        0 <= bs(h.table[2 * x]).depth < h.depth,
{
    let depth = h.depth as int;
    let ld = bs(h.table[2 * x]).depth;
    assert(h.table[2 * x] == h.table[2 * x + 1]);
    assert((h.table[2 * x] == h.table[2 * x + 1]) == (prefix(2 * x, depth, ld) == prefix(
        2 * x + 1,
        depth,
        ld,
    )));
    if ld == depth {
        assert(record::two_to(0) == 1);
    }
}

/// A hash leads to the same bucket in a halved table.
proof fn lemma_halved_slot(h: Dh, bs: Buckets, hash: u64)
    requires
        fits(h, bs),
        h.depth >= 1,
        dir::all_paired(h.table),
    ensures
        dir::bucket_for(halved_header(h), hash) == dir::bucket_for(h, hash),
{
    let depth = h.depth as int;
    assert(record::two_to(depth) == 2 * record::two_to(depth - 1));
    bucket::lemma_slot_bound(hash, depth);
    lemma_prefix_slot(hash, depth, depth - 1);
    assert(record::two_to(1) == 2) by {
        reveal_with_fuel(record::two_to, 2);
    }
    let s = bucket::slot_of(hash, depth);
    assert(s == 2 * (s / 2) || s == 2 * (s / 2) + 1);
    lemma_halved_entry(h, bs, s / 2);
}

/// Two entries of a halved table.
proof fn lemma_halved_pair(h: Dh, bs: Buckets, x: int, y: int)
    requires
        fits(h, bs),
        h.depth >= 1,
        dir::all_paired(h.table),
        0 <= 2 * x + 1 < h.table.len(),
        0 <= 2 * y + 1 < h.table.len(),
    ensures
        ({
            let t1 = dir::halved(h.table);
            let ld = bs(t1[x]).depth;
            (t1[x] == t1[y]) == (prefix(x, h.depth - 1, ld) == prefix(y, h.depth - 1, ld))
        }),
{
    let depth = h.depth as int;
    lemma_halved_entry(h, bs, x);
    lemma_halved_entry(h, bs, y);
    let ld = bs(h.table[2 * x]).depth;
    assert((h.table[2 * x] == h.table[2 * y]) == (prefix(2 * x, depth, ld) == prefix(
        2 * y,
        depth,
        ld,
    )));
    lemma_prefix_double(2 * x, depth - 1, ld);
    lemma_prefix_double(2 * y, depth - 1, ld);
    assert((2 * x) / 2 == x && (2 * y) / 2 == y);
}

/// A table in which every two neighbours agree is halved: every search finds
/// what it found.
pub proof fn lemma_halve(h: Dh, bs: Buckets)
    requires
        fits(h, bs),
        h.depth >= 1,
        dir::all_paired(h.table),
    ensures
        ({
            let h1 = Dh { depth: (h.depth - 1) as u8, table: dir::halved(h.table), ..h };
            &&& fits(h1, bs)
            &&& forall|hash: u64, name: Seq<char>| #[trigger]
                lookup(h1, bs, hash, name) == lookup(h, bs, hash, name)
        }),
{
    let depth = h.depth as int;
    let h1 = halved_header(h);
    assert(record::two_to(depth) == 2 * record::two_to(depth - 1));
    assert forall|hash: u64| #[trigger] dir::bucket_for(h1, hash) == dir::bucket_for(h, hash) by {
        lemma_halved_slot(h, bs, hash);
    }
    assert forall|x: int|
        #![trigger h1.table[x]]
        0 <= x < h1.table.len() implies {
        let y = bs(h1.table[x]);
        &&& 0 <= y.depth <= h1.depth
        &&& once(y.es)
        &&& forall|k: int|
            0 <= k < y.es.len() ==> dir::bucket_for(h1, (#[trigger] y.es[k]).hash) == h1.table[x]
    } by {
        lemma_halved_entry(h, bs, x);
    }
    assert forall|x: int, y: int|
        #![trigger h1.table[x], h1.table[y]]
        0 <= x < h1.table.len() && 0 <= y < h1.table.len() implies (h1.table[x] == h1.table[y])
        == (prefix(x, depth - 1, bs(h1.table[x]).depth) == prefix(
        y,
        depth - 1,
        bs(h1.table[x]).depth,
    )) by {
        lemma_halved_pair(h, bs, x, y);
    }
}

// --- splitting ----------------------------------------------------------------

/// A table twice as large: every search finds what it found.
#[verifier::rlimit(40)]
pub proof fn lemma_double(h: Dh, bs: Buckets)
    requires
        fits(h, bs),
        h.depth < 31,
    ensures
        ({
            let h1 = Dh { depth: (h.depth + 1) as u8, table: dir::doubled(h.table), ..h };
            &&& fits(h1, bs)
            &&& forall|hash: u64, name: Seq<char>| #[trigger]
                lookup(h1, bs, hash, name) == lookup(h, bs, hash, name)
        }),
{
    let depth = h.depth as int;
    let h1 = Dh { depth: (h.depth + 1) as u8, table: dir::doubled(h.table), ..h };
    assert(record::two_to(depth + 1) == 2 * record::two_to(depth));
    assert forall|hash: u64| #[trigger] dir::bucket_for(h1, hash) == dir::bucket_for(h, hash) by {
        bucket::lemma_slot_bound(hash, depth + 1);
        lemma_prefix_slot(hash, depth + 1, depth);
        assert(record::two_to(1) == 2) by {
            reveal_with_fuel(record::two_to, 2);
        }
    }
    assert forall|x: int|
        #![trigger h1.table[x]]
        0 <= x < h1.table.len() implies {
        let y = bs(h1.table[x]);
        &&& 0 <= y.depth <= h1.depth
        &&& once(y.es)
        &&& forall|k: int|
            0 <= k < y.es.len() ==> dir::bucket_for(h1, (#[trigger] y.es[k]).hash) == h1.table[x]
    } by {
        assert(h1.table[x] == h.table[x / 2]);
    }
    assert forall|x: int, y: int|
        #![trigger h1.table[x], h1.table[y]]
        0 <= x < h1.table.len() && 0 <= y < h1.table.len() implies (h1.table[x] == h1.table[y])
        == (prefix(x, depth + 1, bs(h1.table[x]).depth) == prefix(
        y,
        depth + 1,
        bs(h1.table[x]).depth,
    )) by {
        assert(h1.table[x] == h.table[x / 2]);
        assert(h1.table[y] == h.table[y / 2]);
        let ld = bs(h1.table[x]).depth;
        lemma_prefix_double(x, depth, ld);
        lemma_prefix_double(y, depth, ld);
    }
}

/// Which entries have the bit, each once.
#[verifier::rlimit(40)]
proof fn lemma_with_bit(es: Seq<Hent>, bit: int, on: bool)
    requires
        once(es),
    ensures
        once(dir::with_bit(es, bit, on)),
        forall|e: Hent| #[trigger]
            dir::with_bit(es, bit, on).contains(e) == (es.contains(e) && record::bit_on(
                e.hash as int,
                bit,
            ) == on),
    decreases es.len(),
{
    if es.len() > 0 {
        let head = es.drop_last();
        let last = es.last();
        assert(once(head)) by {
            assert forall|i: int, j: int|
                0 <= i < head.len() && 0 <= j < head.len() && (#[trigger] head[i]).hash == (
                #[trigger] head[j]).hash && head[i].name == head[j].name implies i == j by {
                assert(head[i] == es[i] && head[j] == es[j]);
            }
        }
        lemma_with_bit(head, bit, on);
        let w = dir::with_bit(head, bit, on);
        let r = dir::with_bit(es, bit, on);
        assert forall|e: Hent| #[trigger] es.contains(e) == (head.contains(e) || e == last) by {
            if es.contains(e) {
                let k = choose|k: int| 0 <= k < es.len() && es[k] == e;
                if k < head.len() {
                    assert(head[k] == e);
                }
            }
            if head.contains(e) {
                let k = choose|k: int| 0 <= k < head.len() && head[k] == e;
                assert(es[k] == e);
            }
            if e == last {
                assert(es[es.len() - 1] == e);
            }
        }
        if record::bit_on(last.hash as int, bit) == on {
            assert(r == w.push(last));
            assert forall|e: Hent| #[trigger] r.contains(e) == (w.contains(e) || e == last) by {
                if r.contains(e) {
                    let k = choose|k: int| 0 <= k < r.len() && r[k] == e;
                    if k < w.len() {
                        assert(w[k] == e);
                    }
                }
                if w.contains(e) {
                    let k = choose|k: int| 0 <= k < w.len() && w[k] == e;
                    assert(r[k] == e);
                }
                if e == last {
                    assert(r[r.len() - 1] == e);
                }
            }
            assert(once(r)) by {
                assert forall|i: int, j: int|
                    0 <= i < r.len() && 0 <= j < r.len() && (#[trigger] r[i]).hash == (
                    #[trigger] r[j]).hash && r[i].name == r[j].name implies i == j by {
                    if i < w.len() && j < w.len() {
                        assert(r[i] == w[i] && r[j] == w[j]);
                    } else if i < w.len() {
                        assert(w.contains(w[i]));
                        lemma_not_last(es, w, i);
                    } else if j < w.len() {
                        assert(w.contains(w[j]));
                        lemma_not_last(es, w, j);
                    }
                }
            }
        }
    }
}

/// The last entry is not among the others under the same hash and name.
proof fn lemma_not_last(es: Seq<Hent>, w: Seq<Hent>, i: int)
    requires
        once(es),
        es.len() > 0,
        0 <= i < w.len(),
        es.drop_last().contains(w[i]),
    ensures
        !(w[i].hash == es.last().hash && w[i].name == es.last().name),
{
    let head = es.drop_last();
    let k = choose|k: int| 0 <= k < head.len() && head[k] == w[i];
    assert(es[k] == w[i]);
    assert(es[es.len() - 1] == es.last());
}

/// A bucket split over its own number and a new one by the next bit of the
/// hash: every search finds what it found.
#[verifier::rlimit(40)]
pub proof fn lemma_split(h: Dh, bs: Buckets, b: u32, new: u32, nbuckets: u32, free: Seq<u32>)
    requires
        fits(h, bs),
        h.table.contains(b),
        !h.table.contains(new),
        bs(b).depth < h.depth,
    ensures
        ({
            let ld = bs(b).depth;
            let h1 = Dh {
                nbuckets,
                free,
                table: dir::split_table(h.table, b, new, h.depth - 1 - ld),
                ..h
            };
            let bs1 = with_bucket(
                with_bucket(
                    bs,
                    b,
                    Bucket { depth: ld + 1, es: dir::with_bit(bs(b).es, 63 - ld, false) },
                ),
                new,
                Bucket { depth: ld + 1, es: dir::with_bit(bs(b).es, 63 - ld, true) },
            );
            &&& fits(h1, bs1)
            &&& forall|hash: u64, name: Seq<char>| #[trigger]
                lookup(h1, bs1, hash, name) == lookup(h, bs, hash, name)
        }),
{
    let depth = h.depth as int;
    let ld = bs(b).depth;
    let es = bs(b).es;
    let bit = depth - 1 - ld;
    let hbit = 63 - ld;
    let h1 = Dh { nbuckets, free, table: dir::split_table(h.table, b, new, bit), ..h };
    let lo = Bucket { depth: ld + 1, es: dir::with_bit(es, hbit, false) };
    let hi = Bucket { depth: ld + 1, es: dir::with_bit(es, hbit, true) };
    let bs1 = with_bucket(with_bucket(bs, b, lo), new, hi);
    let i0 = choose|i: int| 0 <= i < h.table.len() && h.table[i] == b;
    assert(h.table[i0] == b);
    assert(0 <= ld && once(es));
    lemma_with_bit(es, hbit, false);
    lemma_with_bit(es, hbit, true);
    assert forall|x: int| 0 <= x < h.table.len() implies #[trigger] h.table[x] != new by {
        assert(h.table.contains(h.table[x]));
    }
    assert forall|hash: u64| {
        &&& #[trigger] dir::bucket_for(h1, hash) == if dir::bucket_for(h, hash) == b
            && record::bit_on(hash as int, hbit) {
            new
        } else {
            dir::bucket_for(h, hash)
        }
        &&& dir::bucket_for(h, hash) != new
    } by {
        bucket::lemma_slot_bound(hash, depth);
        let s = bucket::slot_of(hash, depth);
        lemma_bit_div(s, bit);
        lemma_bit_div(hash as int, hbit);
        lemma_div_div(hash as int, 64 - depth, bit);
        assert(h.table[s] != new);
    }
    assert forall|x: int|
        #![trigger h1.table[x]]
        0 <= x < h1.table.len() implies {
        let y = bs1(h1.table[x]);
        &&& 0 <= y.depth <= h1.depth
        &&& once(y.es)
        &&& forall|k: int|
            0 <= k < y.es.len() ==> dir::bucket_for(h1, (#[trigger] y.es[k]).hash) == h1.table[x]
    } by {
        let o = h.table[x];
        let y = bs1(h1.table[x]);
        assert forall|k: int| 0 <= k < y.es.len() implies dir::bucket_for(
            h1,
            (#[trigger] y.es[k]).hash,
        ) == h1.table[x] by {
            let e = y.es[k];
            if o == b {
                assert(y.es.contains(e));
                assert(es.contains(e));
                let n = choose|n: int| 0 <= n < es.len() && es[n] == e;
                assert(dir::bucket_for(h, es[n].hash) == b);
            } else {
                assert(e == bs(o).es[k]);
            }
        }
    }
    lemma_split_slots(h, bs, h1, bs1, b, new);
    assert forall|hash: u64, name: Seq<char>| #[trigger]
        lookup(h1, bs1, hash, name) == lookup(h, bs, hash, name) by {
        let o = dir::bucket_for(h, hash);
        assert(o != new);
        let n = dir::bucket_for(h1, hash);
        if o == b {
            let part = bs1(n).es;
            assert forall|e: Hent|
                e.hash == hash && e.name == name implies (#[trigger] es.contains(e))
                == part.contains(e) by {}
            lemma_named_same(es, part, hash, name);
        }
    }
}

/// The slots after a split.
#[verifier::rlimit(40)]
proof fn lemma_split_slots(h: Dh, bs: Buckets, h1: Dh, bs1: Buckets, b: u32, new: u32)
    requires
        fits(h, bs),
        h.table.contains(b),
        !h.table.contains(new),
        0 <= bs(b).depth < h.depth,
        h1.depth == h.depth,
        h1.table == dir::split_table(h.table, b, new, h.depth - 1 - bs(b).depth),
        forall|n: u32| n != b && n != new ==> #[trigger] bs1(n) == bs(n),
        bs1(b).depth == bs(b).depth + 1,
        bs1(new).depth == bs(b).depth + 1,
    ensures
        forall|i: int, j: int|
            #![trigger h1.table[i], h1.table[j]]
            0 <= i < h1.table.len() && 0 <= j < h1.table.len() ==> (h1.table[i] == h1.table[j])
                == (prefix(i, h1.depth as int, bs1(h1.table[i]).depth) == prefix(
                j,
                h1.depth as int,
                bs1(h1.table[i]).depth,
            )),
{
    let depth = h.depth as int;
    let ld = bs(b).depth;
    let bit = depth - 1 - ld;
    let i0 = choose|i: int| 0 <= i < h.table.len() && h.table[i] == b;
    assert forall|i: int, j: int|
        #![trigger h1.table[i], h1.table[j]]
        0 <= i < h1.table.len() && 0 <= j < h1.table.len() implies (h1.table[i] == h1.table[j])
        == (prefix(i, depth, bs1(h1.table[i]).depth) == prefix(
        j,
        depth,
        bs1(h1.table[i]).depth,
    )) by {
        let (x, y) = (h.table[i], h.table[j]);
        assert(h.table.contains(x) && h.table.contains(y));
        lemma_bit_div(i, bit);
        lemma_bit_div(j, bit);
        lemma_prefix_half(i, depth, ld + 1);
        lemma_prefix_half(j, depth, ld + 1);
        let (p, q) = (prefix(i, depth, ld + 1), prefix(j, depth, ld + 1));
        assert((x == y) == (prefix(i, depth, bs(x).depth) == prefix(j, depth, bs(x).depth)));
        assert(h.table[i0] == b);
        if x == b {
            assert((y == b) == (p / 2 == q / 2));
            assert(record::bit_on(i, bit) == (p % 2 == 1));
            assert(record::bit_on(j, bit) == (q % 2 == 1));
        } else {
            assert(h1.table[i] == x);
            assert(bs1(x) == bs(x));
            if y == b {
                assert(h1.table[j] == b || h1.table[j] == new);
            }
        }
    }
}

/// A bucket that is not as deep as the table has slots with the next bit clear
/// and with it set.
pub proof fn lemma_both_halves(h: Dh, bs: Buckets, i: int) -> (r: (int, int))
    requires
        fits(h, bs),
        0 <= i < h.table.len(),
        bs(h.table[i]).depth < h.depth,
    ensures
        0 <= r.0 < h.table.len(),
        0 <= r.1 < h.table.len(),
        h.table[r.0] == h.table[i],
        h.table[r.1] == h.table[i],
        !record::bit_on(r.0, h.depth - 1 - bs(h.table[i]).depth),
        record::bit_on(r.1, h.depth - 1 - bs(h.table[i]).depth),
{
    let depth = h.depth as int;
    let ld = bs(h.table[i]).depth;
    let bit = depth - 1 - ld;
    let j = dir::flipped(i, bit);
    lemma_flipped(i, depth, ld + 1);
    lemma_bit_div(i, bit);
    lemma_bit_div(j, bit);
    lemma_prefix_half(i, depth, ld + 1);
    lemma_prefix_half(j, depth, ld + 1);
    let (p, q) = (prefix(i, depth, ld + 1), prefix(j, depth, ld + 1));
    assert(p / 2 == q / 2);
    assert((h.table[i] == h.table[j]) == (prefix(i, depth, ld) == prefix(j, depth, ld)));
    if record::bit_on(i, bit) {
        (j, i)
    } else {
        (i, j)
    }
}

} // verus!
