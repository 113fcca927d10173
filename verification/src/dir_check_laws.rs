//! What the check of a directory's structure means: each flaw stands for one
//! thing that is wrong, and each such thing is found.

use vstd::prelude::*;

use crate::bucket;
use crate::bucket::Hent;
use crate::dir;
use crate::dir::{Dh, DirFlaw};
use crate::error::FsError;
use crate::fmt::{FMT_EXTENT, FMT_TREE};
use crate::mapping::Mp;
use crate::vol::Vol;

verus! {

proof fn lemma_joined(a: Seq<DirFlaw>, b: Seq<DirFlaw>, x: DirFlaw)
    ensures
        (a + b).contains(x) <==> a.contains(x) || b.contains(x),
{
    let c = a + b;
    if a.contains(x) {
        let i = choose|i: int| 0 <= i < a.len() && a[i] == x;
        assert(c[i] == x);
    }
    if b.contains(x) {
        let i = choose|i: int| 0 <= i < b.len() && b[i] == x;
        assert(c[a.len() + i] == x);
    }
    if c.contains(x) {
        let i = choose|i: int| 0 <= i < c.len() && c[i] == x;
        if i < a.len() {
            assert(a[i] == x);
        } else {
            assert(b[i - a.len()] == x);
        }
    }
}

proof fn lemma_maybe(p: bool, y: DirFlaw, x: DirFlaw)
    ensures
        (if p {
            seq![y]
        } else {
            Seq::empty()
        }).contains(x) <==> p && x == y,
{
    if p {
        assert(seq![y][0] == y);
    }
}

// --- table and freelist -------------------------------------------------------

/// Whether `x` says what is wrong with table slot `i`: it names a bucket that is
/// not there, or one that was freed.
pub open spec fn slot_wrong(h: Dh, i: int, x: DirFlaw) -> bool {
    ||| h.table[i] >= h.nbuckets && x == (DirFlaw::SlotRange { slot: i as u64, bucket: h.table[i] })
    ||| h.free.contains(h.table[i]) && x == (DirFlaw::SlotFreed {
        slot: i as u64,
        bucket: h.table[i],
    })
}

proof fn lemma_table(h: Dh, n: int, x: DirFlaw)
    ensures
        dir::table_flaws(h, n).contains(x) <==> exists|i: int|
            0 <= i < n && #[trigger] slot_wrong(h, i, x),
    decreases n,
{
    if n > 0 {
        lemma_table(h, n - 1, x);
        let i = n - 1;
        let b = h.table[i];
        lemma_joined(dir::table_flaws(h, i), dir::slot_flaws(h, i), x);
        lemma_maybe(b >= h.nbuckets, DirFlaw::SlotRange { slot: i as u64, bucket: b }, x);
        lemma_maybe(h.free.contains(b), DirFlaw::SlotFreed { slot: i as u64, bucket: b }, x);
        lemma_joined(
            if b >= h.nbuckets {
                seq![DirFlaw::SlotRange { slot: i as u64, bucket: b }]
            } else {
                Seq::empty()
            },
            if h.free.contains(b) {
                seq![DirFlaw::SlotFreed { slot: i as u64, bucket: b }]
            } else {
                Seq::empty()
            },
            x,
        );
        if slot_wrong(h, i, x) {
        }
    }
}

/// Whether `x` says that the freelist names a bucket that is not there.
pub open spec fn free_wrong(h: Dh, i: int, x: DirFlaw) -> bool {
    h.free[i] >= h.nbuckets && x == (DirFlaw::FreeRange { bucket: h.free[i] })
}

proof fn lemma_free(h: Dh, n: int, x: DirFlaw)
    ensures
        dir::free_flaws(h, n).contains(x) <==> exists|i: int|
            0 <= i < n && #[trigger] free_wrong(h, i, x),
    decreases n,
{
    if n > 0 {
        let i = n - 1;
        lemma_free(h, i, x);
        if h.free[i] >= h.nbuckets {
            let y = DirFlaw::FreeRange { bucket: h.free[i] };
            assert(dir::free_flaws(h, i).push(y) =~= dir::free_flaws(h, i) + seq![y]);
            lemma_joined(dir::free_flaws(h, i), seq![y], x);
            lemma_maybe(true, y, x);
        }
        if free_wrong(h, i, x) {
        }
    }
}

// --- buckets ------------------------------------------------------------------

/// Whether `x` says what is wrong with entry `k` of bucket `b`: its cached hash
/// is not that of its name, or the hash of its name leads to another bucket.
pub open spec fn entry_wrong(
    uuid: Seq<u8>,
    h: Dh,
    b: u32,
    es: Seq<Hent>,
    k: int,
    x: DirFlaw,
) -> bool {
    let hash = bucket::name_hash(uuid, es[k].name);
    ||| es[k].hash != hash && x == (DirFlaw::StoredHash { bucket: b, entry: k as u64 })
    ||| dir::bucket_for(h, hash) != b && x == (DirFlaw::WrongBucket { bucket: b, entry: k as u64 })
}

proof fn lemma_entries(uuid: Seq<u8>, h: Dh, b: u32, es: Seq<Hent>, n: int, x: DirFlaw)
    ensures
        dir::entries_flaws(uuid, h, b, es, n).contains(x) <==> exists|k: int|
            0 <= k < n && #[trigger] entry_wrong(uuid, h, b, es, k, x),
    decreases n,
{
    if n > 0 {
        let k = n - 1;
        lemma_entries(uuid, h, b, es, k, x);
        let hash = bucket::name_hash(uuid, es[k].name);
        lemma_joined(
            dir::entries_flaws(uuid, h, b, es, k),
            dir::entry_flaws(uuid, h, b, es, k),
            x,
        );
        let p = hash != es[k].hash;
        let q = dir::bucket_for(h, hash) != b;
        lemma_maybe(p, DirFlaw::StoredHash { bucket: b, entry: k as u64 }, x);
        lemma_maybe(q, DirFlaw::WrongBucket { bucket: b, entry: k as u64 }, x);
        lemma_joined(
            if p {
                seq![DirFlaw::StoredHash { bucket: b, entry: k as u64 }]
            } else {
                Seq::empty()
            },
            if q {
                seq![DirFlaw::WrongBucket { bucket: b, entry: k as u64 }]
            } else {
                Seq::empty()
            },
            x,
        );
        if entry_wrong(uuid, h, b, es, k, x) {
        }
    }
}

/// Whether `x` says what is wrong with bucket `b`, which is in use: it cannot be
/// read, it is deeper than the table, or something is wrong with an entry.
pub open spec fn bucket_wrong(
    v: Vol,
    t: Map<u64, Seq<u8>>,
    uuid: Seq<u8>,
    m: Mp,
    h: Dh,
    b: int,
    x: DirFlaw,
) -> bool {
    &&& !h.free.contains(b as u32)
    &&& match dir::bucket_of(v, t, m, b as u32) {
        Err(error) => x == (DirFlaw::BadBucket { bucket: b as u32, error }),
        Ok((_, ld, es)) => {
            ||| ld > h.depth && x == (DirFlaw::TooDeep { bucket: b as u32, local: ld })
            ||| exists|k: int|
                0 <= k < es.len() && #[trigger] entry_wrong(uuid, h, b as u32, es, k, x)
        },
    }
}

proof fn lemma_buckets(
    v: Vol,
    t: Map<u64, Seq<u8>>,
    uuid: Seq<u8>,
    m: Mp,
    h: Dh,
    n: int,
    x: DirFlaw,
)
    ensures
        dir::buckets_flaws(v, t, uuid, m, h, n).contains(x) <==> exists|b: int|
            0 <= b < n && #[trigger] bucket_wrong(v, t, uuid, m, h, b, x),
    decreases n,
{
    if n > 0 {
        let i = n - 1;
        let b = i as u32;
        lemma_buckets(v, t, uuid, m, h, i, x);
        if !h.free.contains(b) {
            lemma_joined(
                dir::buckets_flaws(v, t, uuid, m, h, i),
                dir::bucket_flaws(v, t, uuid, m, h, b),
                x,
            );
            match dir::bucket_of(v, t, m, b) {
                Err(error) => {
                    lemma_maybe(true, DirFlaw::BadBucket { bucket: b, error }, x);
                },
                Ok((_, ld, es)) => {
                    let y = DirFlaw::TooDeep { bucket: b, local: ld };
                    lemma_maybe(ld > h.depth, y, x);
                    lemma_entries(uuid, h, b, es, es.len() as int, x);
                    lemma_joined(
                        if ld > h.depth {
                            seq![y]
                        } else {
                            Seq::empty()
                        },
                        dir::entries_flaws(uuid, h, b, es, es.len() as int),
                        x,
                    );
                },
            }
            assert(dir::bucket_flaws(v, t, uuid, m, h, b).contains(x) <==> bucket_wrong(
                v,
                t,
                uuid,
                m,
                h,
                i,
                x,
            ));
        }
        if bucket_wrong(v, t, uuid, m, h, i, x) {
        }
    }
}

/// The flaws of a hashed directory are what is wrong with its table, its
/// freelist and its buckets: all of it and nothing else.
pub proof fn law_flaws_are_what_is_wrong(
    v: Vol,
    t: Map<u64, Seq<u8>>,
    uuid: Seq<u8>,
    m: Mp,
    hblk: u64,
    h: Dh,
    x: DirFlaw,
)
    requires
        m.format == FMT_EXTENT || m.format == FMT_TREE,
        dir::dh_of(v, t, m) == Ok::<(u64, Dh), FsError>((hblk, h)),
    ensures
        dir::dir_flaws(v, t, uuid, m) is Ok,
        dir::dir_flaws(v, t, uuid, m)->Ok_0.contains(x) <==> {
            ||| exists|i: int| 0 <= i < h.table.len() && #[trigger] slot_wrong(h, i, x)
            ||| exists|i: int| 0 <= i < h.free.len() && #[trigger] free_wrong(h, i, x)
            ||| exists|b: int|
                0 <= b < h.nbuckets && #[trigger] bucket_wrong(v, t, uuid, m, h, b, x)
        },
{
    let a = dir::table_flaws(h, h.table.len() as int);
    let b = dir::free_flaws(h, h.free.len() as int);
    let c = dir::buckets_flaws(v, t, uuid, m, h, h.nbuckets as int);
    lemma_table(h, h.table.len() as int, x);
    lemma_free(h, h.free.len() as int, x);
    lemma_buckets(v, t, uuid, m, h, h.nbuckets as int, x);
    lemma_joined(a, b, x);
    lemma_joined(a + b, c, x);
}

// --- the order of names -------------------------------------------------------

/// Names are in the order of their code points: the first that differ decide,
/// and a name comes before those that it starts.
pub proof fn law_names_go_by_code_points(a: Seq<char>, b: Seq<char>, k: int)
    requires
        0 <= k <= a.len(),
        k <= b.len(),
        forall|i: int| 0 <= i < k ==> #[trigger] a[i] == b[i],
        k < a.len() && k < b.len() ==> a[k] as u32 != b[k] as u32,
    ensures
        k == a.len() ==> dir::name_le(a, b),
        k == b.len() && k < a.len() ==> !dir::name_le(a, b),
        k < a.len() && k < b.len() ==> dir::name_le(a, b) == ((a[k] as u32) < (b[k] as u32)),
    decreases k,
{
    if k > 0 {
        let x = a.skip(1);
        let y = b.skip(1);
        assert(a[0] == b[0]);
        assert forall|i: int| 0 <= i < k - 1 implies #[trigger] x[i] == y[i] by {
            assert(a[i + 1] == b[i + 1]);
        }
        law_names_go_by_code_points(x, y, k - 1);
    }
}

} // verus!
