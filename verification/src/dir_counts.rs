//! How many entries a directory has: an insertion adds one, a removal takes one
//! away, and a hashed directory in order shows no flaw before or after. One that lost
//! its last entry gives its blocks back.

use crate::allocator::Pool;
use crate::bucket::Hent;
use crate::dir::{Dh, DirFlaw, Dn};
use crate::dir_model::{Bucket, Buckets};
use crate::dirent::Dirent;
use crate::error::FsError;
use crate::fmt::{FMT_EMPTY, FMT_EXTENT, FMT_TREE, INODE_PAYLOAD};
use crate::header::AgHeader;
use crate::mapping::Mp;
use crate::vol::Vol;
use vstd::prelude::*;

use crate::bucket;
use crate::dir;
use crate::dir_laws;
use crate::dir_merge;
use crate::dir_model;
use crate::dirent;
use crate::fmt;
use crate::inode;
use crate::mapping;
use crate::mapping_laws;
use crate::tree_cut;
use crate::tree_growth;
use crate::tree_laws;
use crate::truncate;
use crate::truncate_laws;
use crate::utf16;
use crate::vol;

verus! {

/// A name that is taken is refused, and nothing changes.
pub proof fn law_taken_name_is_refused(
    v: Vol,
    p: Pool,
    uuid: Seq<u8>,
    ag: u32,
    d: Dn,
    e: Dirent,
)
    requires
        dir::found(v, p.t, uuid, true, d.m, e.name) matches Ok(Some(_)),
    ensures
        dir::inserted(v, p, uuid, ag, true, d, e) == (p, d, Err::<(), FsError>(FsError::Exists)),
{
}

// --- flaws --------------------------------------------------------------------

/// A hashed directory in order whose entries have the hashes of their names has no
/// flaw.
pub proof fn law_directory_in_order_has_no_flaw(
    v: Vol,
    t: Map<u64, Seq<u8>>,
    uuid: Seq<u8>,
    m: Mp,
    hblk: u64,
    h: Dh,
    bs: Buckets,
)
    requires
        m.format == FMT_EXTENT || m.format == FMT_TREE,
        dir_laws::in_order(v, t, m, hblk, h, bs),
        dir_laws::hashes_right(uuid, h, bs),
    ensures
        dir::dir_flaws(v, t, uuid, m) == Ok::<Seq<DirFlaw>, FsError>(Seq::empty()),
{
    dir_laws::lemma_stored_reads(v, t, m, hblk, h, bs);
    lemma_no_table_flaw(h, h.table.len() as int);
    lemma_no_free_flaw(h, h.free.len() as int);
    lemma_no_bucket_flaw(v, t, uuid, m, hblk, h, bs, h.nbuckets as int);
}

proof fn lemma_no_table_flaw(h: Dh, n: int)
    requires
        dir_laws::numbered(h),
        n <= h.table.len(),
    ensures
        dir::table_flaws(h, n) == Seq::<DirFlaw>::empty(),
    decreases n,
{
    if n > 0 {
        lemma_no_table_flaw(h, n - 1);
        assert(h.table[n - 1] < h.nbuckets);
    }
}

proof fn lemma_no_free_flaw(h: Dh, n: int)
    requires
        dir_laws::numbered(h),
        n <= h.free.len(),
    ensures
        dir::free_flaws(h, n) == Seq::<DirFlaw>::empty(),
    decreases n,
{
    if n > 0 {
        lemma_no_free_flaw(h, n - 1);
        assert(h.free[n - 1] < h.nbuckets);
    }
}

proof fn lemma_no_bucket_flaw(
    v: Vol,
    t: Map<u64, Seq<u8>>,
    uuid: Seq<u8>,
    m: Mp,
    hblk: u64,
    h: Dh,
    bs: Buckets,
    n: int,
)
    requires
        dir_laws::in_order(v, t, m, hblk, h, bs),
        dir_laws::hashes_right(uuid, h, bs),
        n <= h.nbuckets,
    ensures
        dir::buckets_flaws(v, t, uuid, m, h, n) == Seq::<DirFlaw>::empty(),
    decreases n,
{
    if n > 0 {
        lemma_no_bucket_flaw(v, t, uuid, m, hblk, h, bs, n - 1);
        let b = (n - 1) as u32;
        if !h.free.contains(b) {
            dir_laws::lemma_stored_reads(v, t, m, hblk, h, bs);
            assert(h.table.contains(b));
            let i = choose|i: int| 0 <= i < h.table.len() && h.table[i] == b;
            assert(h.table[i] == b);
            lemma_no_entry_flaw(uuid, h, bs, i, bs(b).es.len() as int);
        }
    }
}

proof fn lemma_no_entry_flaw(uuid: Seq<u8>, h: Dh, bs: Buckets, i: int, n: int)
    requires
        dir_model::fits(h, bs),
        dir_laws::hashes_right(uuid, h, bs),
        0 <= i < h.table.len(),
        n <= bs(h.table[i]).es.len(),
    ensures
        dir::entries_flaws(uuid, h, h.table[i], bs(h.table[i]).es, n) == Seq::<DirFlaw>::empty(),
    decreases n,
{
    if n > 0 {
        lemma_no_entry_flaw(uuid, h, bs, i, n - 1);
        let x = bs(h.table[i]).es[n - 1];
        assert(x.hash == bucket::name_hash(uuid, x.name));
        assert(dir::bucket_for(h, x.hash) == h.table[i]);
    }
}

/// Hashes stay right where every entry was there before or has the hash of its name.
proof fn lemma_right_still(uuid: Seq<u8>, h: Dh, bs: Buckets, h1: Dh, bs1: Buckets)
    requires
        dir_model::fits(h, bs),
        dir_model::fits(h1, bs1),
        dir_laws::hashes_right(uuid, h, bs),
        forall|hash: u64, name: Seq<char>|
            (#[trigger] dir_model::lookup(h1, bs1, hash, name)) is Some ==> hash
                == bucket::name_hash(uuid, name) || dir_model::lookup(h, bs, hash, name) is Some,
    ensures
        dir_laws::hashes_right(uuid, h1, bs1),
{
    assert forall|i: int, k: int|
        #![trigger bs1(h1.table[i]).es[k]]
        0 <= i < h1.table.len() && 0 <= k < bs1(h1.table[i]).es.len() implies bs1(
        h1.table[i],
    ).es[k].hash == bucket::name_hash(uuid, bs1(h1.table[i]).es[k].name) by {
        let x = bs1(h1.table[i]).es[k];
        assert(dir::bucket_for(h1, x.hash) == h1.table[i]);
        dir_model::lemma_named_at(bs1(h1.table[i]).es, x.hash, x.name, k);
        assert(dir_model::lookup(h1, bs1, x.hash, x.name) == Some(x));
        if dir_model::lookup(h, bs, x.hash, x.name) is Some {
            let b = dir::bucket_for(h, x.hash);
            bucket::lemma_slot_bound(x.hash, h.depth as int);
            let s = bucket::slot_of(x.hash, h.depth as int);
            assert(h.table[s] == b);
            dir_model::lemma_named(bs(b).es, x.hash, x.name, 0);
            let j = dir::hent_named(bs(b).es, x.hash, x.name, 0)->Some_0;
            assert(bs(h.table[s]).es[j].hash == bucket::name_hash(
                uuid,
                bs(h.table[s]).es[j].name,
            ));
        }
    }
}

// --- counting -----------------------------------------------------------------

/// The name of an entry of a bucket in use, from bucket `b` on.
spec fn named_from(h: Dh, bs: Buckets, b: int, name: Seq<char>) -> bool {
    exists|n: u32, k: int|
        #![trigger bs(n).es[k]]
        b <= n < h.nbuckets && !h.free.contains(n) && 0 <= k < bs(n).es.len() && bs(n).es[k].name
            == name
}

/// No two entries have the same name.
spec fn names_apart(es: Seq<Dirent>) -> bool {
    forall|i: int, j: int|
        0 <= i < j < es.len() ==> (#[trigger] es[i]).name != (#[trigger] es[j]).name
}

/// Entries of buckets in use with the same name are the same entry.
proof fn lemma_one_entry(
    uuid: Seq<u8>,
    h: Dh,
    bs: Buckets,
    n: u32,
    k: int,
    n1: u32,
    k1: int,
)
    requires
        dir_model::fits(h, bs),
        dir_laws::numbered(h),
        dir_laws::hashes_right(uuid, h, bs),
        n < h.nbuckets,
        !h.free.contains(n),
        0 <= k < bs(n).es.len(),
        n1 < h.nbuckets,
        !h.free.contains(n1),
        0 <= k1 < bs(n1).es.len(),
        bs(n).es[k].name == bs(n1).es[k1].name,
    ensures
        n == n1,
        k == k1,
{
    assert(h.table.contains(n) && h.table.contains(n1));
    let i = choose|i: int| 0 <= i < h.table.len() && h.table[i] == n;
    let j = choose|j: int| 0 <= j < h.table.len() && h.table[j] == n1;
    assert(h.table[i] == n && h.table[j] == n1);
    assert(bs(h.table[i]).es[k].hash == bs(h.table[j]).es[k1].hash);
    assert(dir::bucket_for(h, bs(h.table[i]).es[k].hash) == h.table[i]);
    assert(dir::bucket_for(h, bs(h.table[j]).es[k1].hash) == h.table[j]);
    assert(dir_model::once(bs(h.table[i]).es));
}

/// An entry of that name is among them.
spec fn has_name(es: Seq<Dirent>, name: Seq<char>) -> bool {
    exists|i: int| 0 <= i < es.len() && (#[trigger] es[i]).name == name
}

/// The entries of a bucket behind others.
proof fn lemma_has_name(acc: Seq<Dirent>, es: Seq<Hent>, name: Seq<char>)
    ensures
        has_name(acc + dir::plain(es), name) == (has_name(acc, name) || exists|k: int|
            0 <= k < es.len() && (#[trigger] es[k]).name == name),
{
    let more = dir::plain(es);
    let all = acc + more;
    if has_name(all, name) {
        let i = choose|i: int| 0 <= i < all.len() && (#[trigger] all[i]).name == name;
        if i < acc.len() {
            assert(acc[i].name == name);
        } else {
            assert(es[i - acc.len()].name == name);
        }
    }
    if has_name(acc, name) {
        let i = choose|i: int| 0 <= i < acc.len() && (#[trigger] acc[i]).name == name;
        assert(all[i].name == name);
    }
    if exists|k: int| 0 <= k < es.len() && (#[trigger] es[k]).name == name {
        let k = choose|k: int| 0 <= k < es.len() && (#[trigger] es[k]).name == name;
        assert(all[acc.len() + k].name == name);
    }
}

/// One bucket more, whose names are new.
proof fn lemma_apart_more(
    uuid: Seq<u8>,
    h: Dh,
    bs: Buckets,
    n: u32,
    acc: Seq<Dirent>,
)
    requires
        dir_model::fits(h, bs),
        dir_laws::numbered(h),
        dir_laws::hashes_right(uuid, h, bs),
        n < h.nbuckets,
        !h.free.contains(n),
        names_apart(acc),
        forall|name: Seq<char>| has_name(acc, name) ==> !(#[trigger] named_from(h, bs, n as int, name)),
    ensures
        names_apart(acc + dir::plain(bs(n).es)),
        forall|name: Seq<char>|
            has_name(acc + dir::plain(bs(n).es), name) ==> !(#[trigger] named_from(
                h,
                bs,
                n + 1,
                name,
            )),
{
    let es = bs(n).es;
    let all = acc + dir::plain(es);
    assert forall|i: int, j: int| 0 <= i < j < all.len() implies (#[trigger] all[i]).name != (
    #[trigger] all[j]).name by {
        if i >= acc.len() {
            let x = es[i - acc.len()];
            let y = es[j - acc.len()];
            assert(x.name == all[i].name && y.name == all[j].name);
            if all[i].name == all[j].name {
                lemma_one_entry(uuid, h, bs, n, i - acc.len(), n, j - acc.len());
            }
        } else if j >= acc.len() {
            assert(acc[i] == all[i]);
            assert(has_name(acc, acc[i].name));
            let x = bs(n).es[j - acc.len()];
            assert(x.name == all[j].name);
            if x.name == acc[i].name {
                assert(named_from(h, bs, n as int, acc[i].name));
            }
        } else {
            assert(acc[i] == all[i] && acc[j] == all[j]);
        }
    }
    assert forall|name: Seq<char>| has_name(all, name) implies !(#[trigger] named_from(
        h,
        bs,
        n + 1,
        name,
    )) by {
        lemma_has_name(acc, es, name);
        lemma_named_from(h, bs, n as int, name);
        if named_from(h, bs, n + 1, name) && !has_name(acc, name) {
            let k = choose|k: int| 0 <= k < es.len() && (#[trigger] es[k]).name == name;
            let (n1, k1) = choose|n1: u32, k1: int|
                #![trigger bs(n1).es[k1]]
                n + 1 <= n1 < h.nbuckets && !h.free.contains(n1) && 0 <= k1 < bs(n1).es.len() && bs(
                    n1,
                ).es[k1].name == name;
            lemma_one_entry(uuid, h, bs, n, k, n1, k1);
        }
    }
}

/// What is gathered has each name once.
#[verifier::rlimit(40)]
#[verifier::spinoff_prover]
proof fn lemma_gather_once(
    v: Vol,
    t: Map<u64, Seq<u8>>,
    uuid: Seq<u8>,
    m: Mp,
    hblk: u64,
    h: Dh,
    bs: Buckets,
    b: int,
    acc: Seq<Dirent>,
)
    requires
        dir_laws::in_order(v, t, m, hblk, h, bs),
        dir_laws::hashes_right(uuid, h, bs),
        0 <= b,
        names_apart(acc),
        forall|name: Seq<char>| has_name(acc, name) ==> !(#[trigger] named_from(h, bs, b, name)),
    ensures
        dir::gather(v, t, m, h, b, acc) is Ok,
        names_apart(dir::gather(v, t, m, h, b, acc)->Ok_0),
        forall|name: Seq<char>| #[trigger]
            has_name(dir::gather(v, t, m, h, b, acc)->Ok_0, name) == (has_name(acc, name)
                || named_from(h, bs, b, name)),
    decreases h.nbuckets - b,
{
    if b < h.nbuckets {
        let n = b as u32;
        if h.free.contains(n) {
            assert forall|name: Seq<char>| named_from(h, bs, b, name) == #[trigger] named_from(
                h,
                bs,
                b + 1,
                name,
            ) by {
                lemma_named_from(h, bs, b, name);
            }
            lemma_gather_once(v, t, uuid, m, hblk, h, bs, b + 1, acc);
            let es = dir::gather(v, t, m, h, b + 1, acc)->Ok_0;
            assert forall|name: Seq<char>| #[trigger]
                has_name(es, name) == (has_name(acc, name) || named_from(h, bs, b, name)) by {
                assert(named_from(h, bs, b, name) == named_from(h, bs, b + 1, name));
            }
        } else {
            let all = acc + dir::plain(bs(n).es);
            assert(dir::gather(v, t, m, h, b, acc) == dir::gather(v, t, m, h, b + 1, all)) by {
                dir_laws::lemma_stored_reads(v, t, m, hblk, h, bs);
                assert(h.table.contains(n));
                let i0 = choose|i: int| 0 <= i < h.table.len() && h.table[i] == n;
                assert(h.table[i0] == n);
            }
            lemma_apart_more(uuid, h, bs, n, acc);
            lemma_gather_once(v, t, uuid, m, hblk, h, bs, b + 1, all);
            let es = dir::gather(v, t, m, h, b + 1, all)->Ok_0;
            assert forall|name: Seq<char>| #[trigger]
                has_name(es, name) == (has_name(acc, name) || named_from(h, bs, b, name)) by {
                lemma_named_from(h, bs, b, name);
                lemma_has_name(acc, bs(n).es, name);
                assert(has_name(es, name) == (has_name(all, name) || named_from(
                    h,
                    bs,
                    b + 1,
                    name,
                )));
            }
        }
    } else {
        assert forall|name: Seq<char>| !(#[trigger] named_from(h, bs, b, name)) by {}
    }
}

/// Either in bucket `b` or past it.
proof fn lemma_named_from(h: Dh, bs: Buckets, b: int, name: Seq<char>)
    requires
        0 <= b < h.nbuckets,
    ensures
        named_from(h, bs, b, name) == (named_from(h, bs, b + 1, name) || (!h.free.contains(b as u32)
            && exists|k: int|
            0 <= k < bs(b as u32).es.len() && (#[trigger] bs(b as u32).es[k]).name == name)),
{
    if named_from(h, bs, b, name) {
        let (n, k) = choose|n: u32, k: int|
            #![trigger bs(n).es[k]]
            b <= n < h.nbuckets && !h.free.contains(n) && 0 <= k < bs(n).es.len() && bs(
                n,
            ).es[k].name == name;
        if n == b as u32 {
            assert(bs(b as u32).es[k].name == name);
        } else {
            assert(bs(n).es[k].name == name);
        }
    }
    if named_from(h, bs, b + 1, name) {
        let (n, k) = choose|n: u32, k: int|
            #![trigger bs(n).es[k]]
            b + 1 <= n < h.nbuckets && !h.free.contains(n) && 0 <= k < bs(n).es.len() && bs(
                n,
            ).es[k].name == name;
        assert(bs(n).es[k].name == name);
    }
}

/// The names under which something is found.
spec fn present(uuid: Seq<u8>, h: Dh, bs: Buckets, name: Seq<char>) -> bool {
    dir_model::lookup(h, bs, bucket::name_hash(uuid, name), name) is Some
}

/// A directory in order lists as many entries as there are names in it.
proof fn lemma_count(
    v: Vol,
    t: Map<u64, Seq<u8>>,
    uuid: Seq<u8>,
    m: Mp,
    hblk: u64,
    h: Dh,
    bs: Buckets,
) -> (s: Set<Seq<char>>)
    requires
        m.format == FMT_EXTENT || m.format == FMT_TREE,
        dir_laws::in_order(v, t, m, hblk, h, bs),
        dir_laws::hashes_right(uuid, h, bs),
    ensures
        s.finite(),
        dir::listed(v, t, true, m) matches Ok(es) && es.len() == s.len(),
        forall|name: Seq<char>| #[trigger] s.contains(name) == present(uuid, h, bs, name),
{
    broadcast use vstd::seq_lib::seq_to_set_is_finite;

    dir_laws::lemma_stored_reads(v, t, m, hblk, h, bs);
    lemma_gather_once(v, t, uuid, m, hblk, h, bs, 0, Seq::empty());
    let all = dir::gather(v, t, m, h, 0, Seq::empty())->Ok_0;
    dir_laws::law_listing_is_ordered(all);
    let names = all.map_values(|e: Dirent| e.name);
    assert(names.no_duplicates()) by {
        assert forall|i: int, j: int| 0 <= i < j < names.len() implies names[i] != names[j] by {
            assert(all[i].name != all[j].name);
        }
    }
    names.unique_seq_to_set();
    let s = names.to_set();
    assert forall|name: Seq<char>| #[trigger] s.contains(name) == present(uuid, h, bs, name) by {
        let hash = bucket::name_hash(uuid, name);
        assert(s.contains(name) == names.contains(name));
        assert(names.contains(name) == named_from(h, bs, 0, name)) by {
            assert(!has_name(Seq::empty(), name));
            assert(named_from(h, bs, 0, name) == has_name(all, name));
            if names.contains(name) {
                let i = choose|i: int| 0 <= i < names.len() && names[i] == name;
                assert(all[i].name == name);
            }
            if named_from(h, bs, 0, name) {
                let i = choose|i: int| 0 <= i < all.len() && (#[trigger] all[i]).name == name;
                assert(names[i] == name);
            }
        }
        let b = dir::bucket_for(h, hash);
        bucket::lemma_slot_bound(hash, h.depth as int);
        let sl = bucket::slot_of(hash, h.depth as int);
        assert(h.table[sl] == b);
        dir_model::lemma_named(bs(b).es, hash, name, 0);
        if named_from(h, bs, 0, name) {
            let (n, k) = choose|n: u32, k: int|
                #![trigger bs(n).es[k]]
                0 <= n < h.nbuckets && !h.free.contains(n) && 0 <= k < bs(n).es.len() && bs(
                    n,
                ).es[k].name == name;
            assert(h.table.contains(n));
            let i = choose|i: int| 0 <= i < h.table.len() && h.table[i] == n;
            assert(h.table[i] == n);
            assert(bs(h.table[i]).es[k].hash == hash);
            assert(dir::bucket_for(h, bs(h.table[i]).es[k].hash) == h.table[i]);
            dir_model::lemma_named_at(bs(n).es, hash, name, k);
        }
        if present(uuid, h, bs, name) {
            let k = dir::hent_named(bs(b).es, hash, name, 0)->Some_0;
            assert(bs(b).es[k].name == name);
            assert(named_from(h, bs, 0, name));
        }
    }
    s
}

/// An insertion in a hashed directory adds exactly one entry to its list, and the
/// directory shows no flaw afterwards.
pub proof fn law_insertion_adds_one(
    v: Vol,
    p: Pool,
    uuid: Seq<u8>,
    ag: u32,
    d: Dn,
    hblk: u64,
    h: Dh,
    bs: Buckets,
    e: Dirent,
) -> (r: (Dh, Buckets))
    requires
        v.bs >= 24,
        d.m.format == FMT_EXTENT || d.m.format == FMT_TREE,
        dir_laws::in_order(v, p.t, d.m, hblk, h, bs),
        dir_laws::hashes_right(uuid, h, bs),
        dir_laws::all_grown_well(v, p, ag, d, dir::hashed(uuid, e), dir::MAX_SPLITS as int),
        dir::inserted(v, p, uuid, ag, true, d, e).2 is Ok,
    ensures
        ({
            let (p1, d1, _) = dir::inserted(v, p, uuid, ag, true, d, e);
            let before = dir::listed(v, p.t, true, d.m);
            let after = dir::listed(v, p1.t, true, d1.m);
            &&& dir_laws::in_order(v, p1.t, d1.m, hblk, r.0, r.1)
            &&& dir_laws::hashes_right(uuid, r.0, r.1)
            &&& before is Ok && after is Ok && after->Ok_0.len() == before->Ok_0.len() + 1
            &&& dir::dir_flaws(v, p1.t, uuid, d1.m) == Ok::<Seq<DirFlaw>, FsError>(Seq::empty())
        }),
{
    let x = dir::hashed(uuid, e);
    let n = dir::MAX_SPLITS as int;
    dir_laws::lemma_found(v, p.t, uuid, d.m, hblk, h, bs, e.name);
    let (p1, d1, _) = dir::inserted(v, p, uuid, ag, true, d, e);
    lemma_formats(v, p, ag, d, x, n);
    let (h1, bs1) = dir_laws::lemma_hashed_inserted(v, p, ag, d, hblk, h, bs, x, n);
    lemma_right_still(uuid, h, bs, h1, bs1);
    let s = lemma_count(v, p.t, uuid, d.m, hblk, h, bs);
    let s1 = lemma_count(v, p1.t, uuid, d1.m, hblk, h1, bs1);
    assert(s1 =~= s.insert(e.name)) by {
        assert forall|name: Seq<char>| s1.contains(name) == s.insert(e.name).contains(name) by {
            let hash = bucket::name_hash(uuid, name);
            assert(dir_model::lookup(h1, bs1, hash, name) == if hash == x.hash && name == x.name {
                Some(x)
            } else {
                dir_model::lookup(h, bs, hash, name)
            });
        }
    }
    assert(!s.contains(e.name));
    law_directory_in_order_has_no_flaw(v, p1.t, uuid, d1.m, hblk, h1, bs1);
    (h1, bs1)
}

/// A hashed directory stays one.
proof fn lemma_formats(v: Vol, p: Pool, ag: u32, d: Dn, e: Hent, tries: int)
    requires
        d.m.format == FMT_EXTENT || d.m.format == FMT_TREE,
    ensures
        ({
            let f = dir::hashed_inserted(v, p, ag, d, e, tries).1.m.format;
            f == FMT_EXTENT || f == FMT_TREE
        }),
    decreases tries,
{
    if let Ok((hblk, h)) = dir::dh_of(v, p.t, d.m) {
        let bno = dir::bucket_for(h, e.hash);
        if let Ok((bblk, ld, es)) = dir::bucket_of(v, p.t, d.m, bno) {
            if !bucket::fits_with(v.bs as int, es, e) && tries > 0 {
                reveal(dir::split);
                let (p1, d1, r1) = dir::split(v, p, ag, d, hblk, h, bno, bblk, ld, es);
                if d.m.format == FMT_EXTENT {
                    crate::dir_growth::lemma_format(
                        v,
                        p,
                        ag,
                        d.m,
                        1 + dir_laws::new_bucket(h),
                        1,
                    );
                }
                lemma_formats(v, p1, ag, d1, e, tries - 1);
            }
        }
    }
}

/// The blocks of a hashed directory once an entry was taken out of its bucket and
/// buckets merged.
pub open spec fn taken_out(v: Vol, t: Map<u64, Seq<u8>>, uuid: Seq<u8>, m: Mp, name: Seq<char>) -> Map<
    u64,
    Seq<u8>,
> {
    let hash = bucket::name_hash(uuid, name);
    let h = dir::dh_of(v, t, m)->Ok_0.1;
    let (bblk, ld, es) = dir::bucket_of(v, t, m, dir::bucket_for(h, hash))->Ok_0;
    let k = dir::hent_named(es, hash, name, 0)->Some_0;
    dir::merged(v, dir::bucket_to(v, t, bblk, ld, es.remove(k)).0, m, v.bs as int).0
}

/// The size of entries behind one.
proof fn lemma_size_front(e: Hent, es: Seq<Hent>)
    ensures
        bucket::hents_size(seq![e] + es) == bucket::hent_size(e) + bucket::hents_size(es),
    decreases es.len(),
{
    let all = seq![e] + es;
    if es.len() == 0 {
        assert(all.drop_last() =~= Seq::<Hent>::empty());
        assert(bucket::hents_size(all.drop_last()) == 0);
    } else {
        assert(all.drop_last() =~= seq![e] + es.drop_last());
        lemma_size_front(e, es.drop_last());
    }
}

/// The size of entries without one of them.
proof fn lemma_size_without(es: Seq<Hent>, k: int)
    requires
        0 <= k < es.len(),
    ensures
        bucket::hents_size(es.remove(k)) == bucket::hents_size(es) - bucket::hent_size(es[k]),
    decreases es.len(),
{
    if k == es.len() - 1 {
        assert(es.remove(k) =~= es.drop_last());
    } else {
        lemma_size_without(es.drop_last(), k);
        assert(es.remove(k).drop_last() =~= es.drop_last().remove(k));
    }
}

/// Entries that stand in a block take no more than the block, but for what pads the
/// last of them.
pub proof fn lemma_read_size(b: Seq<u8>, off: int, n: int)
    requires
        0 <= n,
    ensures
        bucket::hents_at(b, off, n) matches Some(es) ==> {
            &&& es.len() == n
            &&& n > 0 ==> off + bucket::hents_size(es) <= b.len() + 7
            &&& n == 0 ==> bucket::hents_size(es) == 0
            &&& forall|i: int|
                0 <= i < es.len() ==> utf16::encode_utf16((#[trigger] es[i]).name).len() <= u16::MAX
        },
    decreases n,
{
    if n > 0 {
        if let Some(es) = bucket::hents_at(b, off, n) {
            let e = bucket::hent_at(b, off)->Some_0;
            let u = dirent::units_at(b, off + 20, fmt::u16_at(b, off + 18) as int);
            utf16::lemma_decode_keeps_length(u);
            let next = off + bucket::slot_size(fmt::u16_at(b, off + 18) as int);
            lemma_read_size(b, next, n - 1);
            let rest = bucket::hents_at(b, next, n - 1)->Some_0;
            lemma_size_front(e, rest);
            assert forall|i: int| 0 <= i < es.len() implies utf16::encode_utf16(
                (#[trigger] es[i]).name,
            ).len() <= u16::MAX by {
                if i > 0 {
                    assert(es[i] == rest[i - 1]);
                }
            }
        }
    }
}

/// Taking the entry of a name that is found out of its bucket: the bucket is written,
/// and the directory is in order.
proof fn lemma_out_of_bucket(
    v: Vol,
    t: Map<u64, Seq<u8>>,
    uuid: Seq<u8>,
    m: Mp,
    hblk: u64,
    h: Dh,
    bs: Buckets,
    name: Seq<char>,
    e: Dirent,
) -> (bs1: Buckets)
    requires
        v.bs >= 24,
        m.format == FMT_EXTENT || m.format == FMT_TREE,
        dir_laws::in_order(v, t, m, hblk, h, bs),
        vol::txn_ok(t, v.bs),
        dir::found(v, t, uuid, true, m, name) == Ok::<Option<Dirent>, FsError>(Some(e)),
    ensures
        ({
            let hash = bucket::name_hash(uuid, name);
            let b = dir::bucket_for(h, hash);
            let es = bs(b).es;
            let blk = dir::dir_addr(v, t, m, 1 + b)->Ok_0;
            let k = dir::hent_named(es, hash, name, 0);
            let (t1, r1) = dir::bucket_to(v, t, blk, bs(b).depth as u8, es.remove(k->Some_0));
            &&& dir::dh_of(v, t, m) == Ok::<(u64, Dh), FsError>((hblk, h))
            &&& dir::bucket_of(v, t, m, b) == Ok::<(u64, u8, Seq<Hent>), FsError>(
                (blk, bs(b).depth as u8, es),
            )
            &&& k is Some
            &&& bucket::dirent_of(es[k->Some_0]) == e
            &&& r1 is Ok
            &&& dir_laws::in_order(v, t1, m, hblk, h, bs1)
        }),
{
    let hash = bucket::name_hash(uuid, name);
    dir_laws::lemma_stored_reads(v, t, m, hblk, h, bs);
    dir_laws::lemma_found(v, t, uuid, m, hblk, h, bs, name);
    bucket::lemma_slot_bound(hash, h.depth as int);
    let s = bucket::slot_of(hash, h.depth as int);
    let b = h.table[s];
    assert(dir_laws::bucket_at(v, t, m, b, bs(b)));
    let es = bs(b).es;
    dir_model::lemma_named(es, hash, name, 0);
    let k = dir::hent_named(es, hash, name, 0)->Some_0;
    let blk = dir::dir_addr(v, t, m, 1 + b)->Ok_0;
    let bytes = vol::rd(v, t, blk)->Ok_0;
    lemma_read_size(bytes, 24, fmt::u16_at(bytes, 18) as int);
    lemma_size_without(es, k);
    let es1 = es.remove(k);
    assert(bucket::bucket_ok(v.bs as int, es1)) by {
        assert forall|i: int| 0 <= i < es1.len() implies utf16::encode_utf16(
            (#[trigger] es1[i]).name,
        ).len() <= u16::MAX by {
            assert(es1[i] == es[if i < k {
                i
            } else {
                i + 1
            }]);
        }
    }
    let ld = bs(b).depth as u8;
    assert(dir::bucket_to(v, t, blk, ld, es1).1 is Ok) by {
        reveal(dir::bucket_to);
    }
    dir_model::lemma_remove(h, bs, hash, name);
    dir_laws::lemma_stored_bucket(v, t, m, hblk, h, bs, s, ld, es1);
    assert(Bucket { depth: ld as int, es: es1 } == (Bucket { es: es1, ..bs(b) }));
    dir_model::with_bucket(bs, b, Bucket { depth: ld as int, es: es1 })
}

/// A name that is found in a hashed directory in order can be removed, and what was
/// found is what is returned, as long as the merging of its buckets, and the return of
/// its blocks where it was the last one, meet no error of their own.
pub proof fn law_found_name_can_be_removed(
    v: Vol,
    p: Pool,
    uuid: Seq<u8>,
    d: Dn,
    hblk: u64,
    h: Dh,
    bs: Buckets,
    name: Seq<char>,
    e: Dirent,
)
    requires
        v.bs >= 24,
        d.m.format == FMT_EXTENT || d.m.format == FMT_TREE,
        dir_laws::in_order(v, p.t, d.m, hblk, h, bs),
        vol::txn_ok(p.t, v.bs),
        dir::found(v, p.t, uuid, true, d.m, name) == Ok::<Option<Dirent>, FsError>(Some(e)),
        v.bs <= 0x10_0000,
        dir_merge::roomy(v, h),
        ({
            let t2 = taken_out(v, p.t, uuid, d.m, name);
            dir::listed(v, t2, true, d.m) == Ok::<Seq<Dirent>, FsError>(Seq::empty())
                ==> truncate::all_freed(v, Pool { t: t2, ..p }, d.m).1 is Ok
        }),
    ensures
        dir::removed(v, p, uuid, true, d, name).2 == Ok::<Dirent, FsError>(e),
{
    let hash = bucket::name_hash(uuid, name);
    let m = d.m;
    let bs1 = lemma_out_of_bucket(v, p.t, uuid, m, hblk, h, bs, name, e);
    let b = dir::bucket_for(h, hash);
    let es = bs(b).es;
    let blk = dir::dir_addr(v, p.t, m, 1 + b)->Ok_0;
    let k = dir::hent_named(es, hash, name, 0)->Some_0;
    let t1 = dir::bucket_to(v, p.t, blk, bs(b).depth as u8, es.remove(k)).0;
    dir_merge::lemma_merged_ok(v, t1, m, hblk, h, bs1);
    let (h2, bs2) = dir_laws::lemma_merged(v, t1, m, hblk, h, bs1, v.bs as int);
    let t2 = dir::merged(v, t1, m, v.bs as int).0;
    dir_laws::lemma_stored_reads(v, t2, m, hblk, h2, bs2);
    dir_laws::lemma_gather(v, t2, m, hblk, h2, bs2, 0, Seq::empty());
    assert(t2 == taken_out(v, p.t, uuid, m, name));
    let left = dir::listed(v, t2, true, m)->Ok_0;
    if left.len() == 0 {
        assert(left =~= Seq::empty());
    }
}

/// The directory between the removal of an entry and the return of its blocks.
#[verifier::rlimit(40)]
proof fn lemma_taken_out(
    v: Vol,
    p: Pool,
    uuid: Seq<u8>,
    d: Dn,
    hblk: u64,
    h: Dh,
    bs: Buckets,
    name: Seq<char>,
) -> (q: (Dh, Buckets))
    requires
        v.bs >= 24,
        d.m.format == FMT_EXTENT || d.m.format == FMT_TREE,
        dir_laws::in_order(v, p.t, d.m, hblk, h, bs),
        dir::removed(v, p, uuid, true, d, name).2 is Ok,
    ensures
        ({
            let t2 = taken_out(v, p.t, uuid, d.m, name);
            let (p1, d1, r) = dir::removed(v, p, uuid, true, d, name);
            let (p3, d3, r3) = dir::collapsed(v, Pool { t: t2, ..p }, true, d);
            &&& dir_laws::in_order(v, t2, d.m, hblk, q.0, q.1)
            &&& r3 is Ok
            &&& (p1, d1) == (p3, d3)
            &&& dir_model::lookup(h, bs, bucket::name_hash(uuid, name), name) is Some
        }),
        forall|hash: u64, nm: Seq<char>| #[trigger]
            dir_model::lookup(q.0, q.1, hash, nm) == if hash == bucket::name_hash(uuid, name) && nm
                == name {
                None
            } else {
                dir_model::lookup(h, bs, hash, nm)
            },
{
    let hash = bucket::name_hash(uuid, name);
    let m = d.m;
    dir_laws::lemma_stored_reads(v, p.t, m, hblk, h, bs);
    bucket::lemma_slot_bound(hash, h.depth as int);
    let s = bucket::slot_of(hash, h.depth as int);
    let b = h.table[s];
    assert(dir_laws::bucket_at(v, p.t, m, b, bs(b)));
    let es = bs(b).es;
    let k = dir::hent_named(es, hash, name, 0)->Some_0;
    dir_model::lemma_remove(h, bs, hash, name);
    let ld = bs(b).depth as u8;
    let blk = dir::dir_addr(v, p.t, m, 1 + b)->Ok_0;
    let t1 = dir::bucket_to(v, p.t, blk, ld, es.remove(k)).0;
    dir_laws::lemma_stored_bucket(v, p.t, m, hblk, h, bs, s, ld, es.remove(k));
    let bs1 = dir_model::with_bucket(bs, b, Bucket { depth: ld as int, es: es.remove(k) });
    assert(Bucket { depth: ld as int, es: es.remove(k) } == (Bucket {
        es: es.remove(k),
        ..bs(b)
    }));
    let (h2, bs2) = dir_laws::lemma_merged(v, t1, m, hblk, h, bs1, v.bs as int);
    assert forall|ha: u64, nm: Seq<char>| #[trigger]
        dir_model::lookup(h2, bs2, ha, nm) == if ha == hash && nm == name {
            None
        } else {
            dir_model::lookup(h, bs, ha, nm)
        } by {
        assert(dir_model::lookup(h2, bs2, ha, nm) == dir_model::lookup(h, bs1, ha, nm));
    }
    (h2, bs2)
}

/// A removal from a hashed directory takes exactly one entry from its list, and the
/// directory shows no flaw afterwards.
pub proof fn law_removal_takes_one(
    v: Vol,
    p: Pool,
    uuid: Seq<u8>,
    d: Dn,
    hblk: u64,
    h: Dh,
    bs: Buckets,
    name: Seq<char>,
)
    requires
        v.bs >= 24,
        d.m.format == FMT_EXTENT || d.m.format == FMT_TREE,
        dir_laws::in_order(v, p.t, d.m, hblk, h, bs),
        dir_laws::hashes_right(uuid, h, bs),
        dir::removed(v, p, uuid, true, d, name).2 is Ok,
    ensures
        ({
            let (p1, d1, _) = dir::removed(v, p, uuid, true, d, name);
            let before = dir::listed(v, p.t, true, d.m);
            let after = dir::listed(v, p1.t, true, d1.m);
            &&& before is Ok && after is Ok && after->Ok_0.len() == before->Ok_0.len() - 1
            &&& dir::dir_flaws(v, p1.t, uuid, d1.m) == Ok::<Seq<DirFlaw>, FsError>(Seq::empty())
        }),
{
    let (p1, d1, _) = dir::removed(v, p, uuid, true, d, name);
    let t2 = taken_out(v, p.t, uuid, d.m, name);
    let (h2, bs2) = lemma_taken_out(v, p, uuid, d, hblk, h, bs, name);
    lemma_right_still(uuid, h, bs, h2, bs2);
    let s = lemma_count(v, p.t, uuid, d.m, hblk, h, bs);
    let s2 = lemma_count(v, t2, uuid, d.m, hblk, h2, bs2);
    assert(s2 =~= s.remove(name)) by {
        assert forall|nm: Seq<char>| s2.contains(nm) == s.remove(name).contains(nm) by {
            let hash = bucket::name_hash(uuid, nm);
            assert(dir_model::lookup(h2, bs2, hash, nm) == if hash == bucket::name_hash(uuid, name)
                && nm == name {
                None
            } else {
                dir_model::lookup(h, bs, hash, nm)
            });
        }
    }
    assert(s.contains(name));
    law_directory_in_order_has_no_flaw(v, t2, uuid, d.m, hblk, h2, bs2);
}

/// A hashed directory that lost its last entry is empty again, with nothing in its
/// inode, and its blocks are free: those that it mapped and, where it had a tree, the
/// nodes of the tree.
pub proof fn law_emptied_directory_gives_its_blocks_back(
    v: Vol,
    p: Pool,
    uuid: Seq<u8>,
    d: Dn,
    hblk: u64,
    h: Dh,
    bs: Buckets,
    name: Seq<char>,
    hdr: AgHeader,
)
    requires
        v.bs >= 24,
        d.m.format == FMT_EXTENT || d.m.format == FMT_TREE,
        dir_laws::in_order(v, p.t, d.m, hblk, h, bs),
        dir::removed(v, p, uuid, true, d, name).2 is Ok,
        dir::listed(v, taken_out(v, p.t, uuid, d.m, name), true, d.m) == Ok::<
            Seq<Dirent>,
            FsError,
        >(Seq::empty()),
        ({
            let t2 = taken_out(v, p.t, uuid, d.m, name);
            if d.m.format == FMT_EXTENT {
                &&& truncate_laws::settled(v, t2, hdr)
                &&& forall|i: int|
                    0 <= i < inode::extents_of(d.m.payload).len() ==> truncate_laws::inside(
                        hdr,
                        #[trigger] inode::extents_of(d.m.payload)[i],
                    )
            } else {
                &&& tree_laws::settled(v, t2, hdr.ag_num, hdr)
                &&& tree_cut::tree_within(v, t2, hdr, d.m.payload)
            }
        }),
    ensures
        ({
            let t2 = taken_out(v, p.t, uuid, d.m, name);
            let (p1, d1, _) = dir::removed(v, p, uuid, true, d, name);
            &&& d1 == (Dn {
                m: Mp { format: FMT_EMPTY, payload: fmt::zeros(INODE_PAYLOAD as nat) },
                size: 0,
                nblocks: 0,
            })
            &&& d.m.format == FMT_EXTENT ==> forall|f: int, a: int| #[trigger]
                mapping_laws::maps(inode::extents_of(d.m.payload), f, a) ==> truncate_laws::is_free(
                    v,
                    p1.t,
                    hdr,
                    a,
                )
            &&& d.m.format == FMT_TREE ==> forall|f: int|
                0 <= f && tree_laws::address(
                    #[trigger] mapping::tree_map(v, t2, d.m.payload, f),
                ) is Some ==> tree_cut::free_at(
                    v,
                    p1.t,
                    hdr,
                    tree_laws::address(mapping::tree_map(v, t2, d.m.payload, f))->Some_0,
                )
            &&& d.m.format == FMT_TREE ==> forall|x: u64| #[trigger]
                tree_growth::in_tree(v, t2, d.m.payload, x) ==> tree_cut::free_at(v, p1.t, hdr, x)
        }),
{
    let t2 = taken_out(v, p.t, uuid, d.m, name);
    lemma_taken_out(v, p, uuid, d, hblk, h, bs, name);
    let q = Pool { t: t2, ..p };
    assert(truncate::all_freed(v, q, d.m).1 is Ok);
    if d.m.format == FMT_EXTENT {
        let _ = truncate_laws::law_freeing_a_file_frees_its_blocks(v, q, hdr, d.m);
    } else {
        let _ = tree_cut::law_freeing_a_tree_frees_its_blocks(v, q, hdr, d.m);
    }
}

} // verus!
