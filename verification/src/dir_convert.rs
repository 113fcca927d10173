//! Directories that outgrow their inode: an embedded directory that is turned
//! into a hashed one keeps its entries.

use crate::allocator::Pool;
use crate::bucket::Hent;
use crate::dir::{Dh, Dn};
use crate::dir_model::{Bucket, Buckets};
use crate::dirent::Dirent;
use crate::error::FsError;
use crate::fmt::{FMT_EMBED, FMT_EMPTY, FMT_EXTENT, FMT_TREE, INODE_PAYLOAD};
use crate::header::AgHeader;
use crate::inode::Extent;
use crate::mapping::Mp;
use crate::vol::Vol;
use vstd::prelude::*;

use crate::bucket;
use crate::dir;
use crate::dir_growth;
use crate::dir_laws;
use crate::dir_model;
use crate::dirent;
use crate::fmt;
use crate::inode;
use crate::mapping_laws;
use crate::record;

verus! {

/// The header of a hashed directory that holds nothing.
pub open spec fn empty_header() -> Dh {
    Dh { depth: 0, nbuckets: 1, table: seq![0u32], free: Seq::empty() }
}

/// Its buckets.
pub open spec fn empty_buckets() -> Buckets {
    |b: u32| Bucket { depth: 0, es: Seq::empty() }
}

/// A directory that holds nothing is in order in itself, and nothing is found
/// in it.
proof fn lemma_empty_model()
    ensures
        dir_model::fits(empty_header(), empty_buckets()),
        dir_laws::numbered(empty_header()),
        forall|hash: u64, name: Seq<char>| #[trigger]
            dir_model::lookup(empty_header(), empty_buckets(), hash, name) is None,
{
    let h = empty_header();
    let bs = empty_buckets();
    assert(record::two_to(0) == 1);
    assert forall|b: u32| b < h.nbuckets implies #[trigger] h.free.contains(b)
        || h.table.contains(b) by {
        assert(h.table[0] == b);
    }
    assert forall|hash: u64, name: Seq<char>| #[trigger]
        dir_model::lookup(h, bs, hash, name) is None by {
        dir_model::lemma_named(Seq::empty(), hash, name, 0);
    }
}

/// The mapping of a file without blocks.
pub open spec fn no_blocks() -> Mp {
    Mp { format: FMT_EXTENT, payload: inode::extents_image(Seq::empty()) }
}

/// A file without blocks grows in the same way whether it is marked empty or
/// not.
proof fn lemma_first_block(v: Vol, p: Pool, ag: u32, d: Dn, fb: int)
    requires
        d.m.format == FMT_EMPTY,
        dir::block_ensured(v, p, ag, d, fb).2 is Ok,
    ensures
        inode::extents_of(no_blocks().payload) == Seq::<Extent>::empty(),
        dir::block_ensured(v, p, ag, d, fb) == dir::block_ensured(
            v,
            p,
            ag,
            Dn { m: no_blocks(), ..d },
            fb,
        ),
{
    inode::law_extents_round_trip(Seq::empty());
}

/// No allocation that fails while a hashed directory is started spoils the tables.
pub open spec fn steady_start(v: Vol, p: Pool, ag: u32, d: Dn) -> bool {
    let (p1, d1, _) = dir::block_ensured(v, p, ag, Dn { m: no_blocks(), ..d }, 0);
    &&& dir_growth::steady(v, p, ag, no_blocks(), 0)
    &&& dir_growth::steady(v, p1, ag, d1.m, 1)
}

/// No allocation that fails while the entries from `k` on are inserted spoils the
/// tables.
pub open spec fn steady_all(
    v: Vol,
    p: Pool,
    uuid: Seq<u8>,
    ag: u32,
    d: Dn,
    es: Seq<Dirent>,
    k: int,
) -> bool
    decreases es.len() - k,
{
    k >= es.len() || {
        let x = dir::hashed(uuid, es[k]);
        let (p1, d1, _) = dir::hashed_inserted(v, p, ag, d, x, dir::MAX_SPLITS as int);
        &&& dir_growth::steady_insert(v, p, ag, d, x, dir::MAX_SPLITS as int)
        &&& steady_all(v, p1, uuid, ag, d1, es, k + 1)
    }
}

/// A hashed directory that was just started holds nothing and is in order.
#[verifier::rlimit(40)]
proof fn lemma_hash_started(v: Vol, p: Pool, ag: u32, hdr: AgHeader, d: Dn) -> (r: (AgHeader, u64))
    requires
        v.bs >= 2048,
        mapping_laws::grows_from(v, p, ag, hdr, Seq::empty()),
        steady_start(v, p, ag, d),
        dir::hash_started(v, p, ag, d).2 is Ok,
    ensures
        ({
            let (p1, d1, _) = dir::hash_started(v, p, ag, d);
            &&& dir_laws::in_order(v, p1.t, d1.m, r.1, empty_header(), empty_buckets())
            &&& dir_growth::ready(v, p1, ag, r.0, d1.m)
        }),
{
    let d0 = Dn { m: Mp { format: FMT_EMPTY, payload: fmt::zeros(INODE_PAYLOAD as nat) }, ..d };
    let dz = Dn { m: no_blocks(), ..d0 };
    let h = empty_header();
    let bs = empty_buckets();
    lemma_first_block(v, p, ag, d0, 0);
    let (p1, d1, r1) = dir::block_ensured(v, p, ag, dz, 0);
    let hblk = r1->Ok_0;
    let (p2, d2, r2) = dir::block_ensured(v, p1, ag, d1, 1);
    let bblk = r2->Ok_0;
    let hdr1 = dir_growth::law_directory_grows_well(v, p, ag, hdr, dz, 0);
    let hdr2 = dir_growth::law_directory_grows_well(v, p1, ag, hdr1, d1, 1);
    let m = d2.m;
    assert(dir::dir_addr(v, p1.t, d1.m, 0) == Ok::<u64, FsError>(hblk));
    assert(dir::dir_addr(v, p2.t, m, 0) == Ok::<u64, FsError>(hblk));
    assert(dir::dir_addr(v, p2.t, m, 1) == Ok::<u64, FsError>(bblk));
    assert(hblk != bblk);
    let t3 = dir::dh_to(v, p2.t, hblk, h).0;
    let t4 = dir::bucket_to(v, t3, bblk, 0, Seq::empty()).0;
    assert(record::two_to(0) == 1);
    dir_laws::law_dir_header_reads_back(v, p2.t, hblk, h);
    dir_laws::law_bucket_reads_back(v, t3, bblk, 0, Seq::empty());
    dir_growth::lemma_ready_apart(v, p2, ag, hdr2, m);
    assert(dir_laws::is_block(v, p2.t, m, hblk));
    assert(dir_laws::rest_kept(v, p2.t, t3, m));
    dir_laws::lemma_mapped_apart(v, p2.t, t3, m);
    assert(dir::dir_addr(v, t3, m, 0) == Ok::<u64, FsError>(hblk));
    assert(dir::dir_addr(v, t3, m, 1) == Ok::<u64, FsError>(bblk));
    assert(dir_laws::is_block(v, t3, m, bblk));
    assert(dir_laws::rest_kept(v, t3, t4, m));
    dir_laws::lemma_mapped_apart(v, t3, t4, m);
    assert(dir::dir_addr(v, t4, m, 0) == Ok::<u64, FsError>(hblk));
    assert(dir::dir_addr(v, t4, m, 1) == Ok::<u64, FsError>(bblk));
    dir_growth::lemma_stores(v, p2, ag, hdr2, m, 0, hblk);
    let q3 = Pool { t: t3, ..p2 };
    assert(dir_growth::ready(v, q3, ag, hdr2, m));
    dir_growth::lemma_stores(v, q3, ag, hdr2, m, 1, bblk);
    assert(dir_laws::header_at(v, t4, m, hblk, h));
    assert(dir_laws::bucket_at(v, t4, m, 0, bs(0)));
    lemma_empty_model();
    (hdr2, hblk)
}

/// What is found once the entries from `k` on were inserted.
pub open spec fn among(
    uuid: Seq<u8>,
    es: Seq<Dirent>,
    k: int,
    hash: u64,
    name: Seq<char>,
    before: Option<Hent>,
) -> Option<Hent> {
    match dir::entry_named(es, name, k) {
        Some(i) => if hash == bucket::name_hash(uuid, name) {
            Some(dir::hashed(uuid, es[i]))
        } else {
            before
        },
        None => before,
    }
}

/// Inserting one after the other the entries from `k` on.
#[verifier::rlimit(40)]
proof fn lemma_all_inserted(
    v: Vol,
    p: Pool,
    uuid: Seq<u8>,
    ag: u32,
    hdr: AgHeader,
    d: Dn,
    hblk: u64,
    h: Dh,
    bs: Buckets,
    es: Seq<Dirent>,
    k: int,
) -> (r: (Dh, Buckets, AgHeader))
    requires
        v.bs >= 2048,
        0 <= k,
        dir_laws::in_order(v, p.t, d.m, hblk, h, bs),
        dir_growth::ready(v, p, ag, hdr, d.m),
        steady_all(v, p, uuid, ag, d, es, k),
        dir_laws::names_once(es),
        forall|i: int|
            k <= i < es.len() ==> dir_model::lookup(
                h,
                bs,
                bucket::name_hash(uuid, (#[trigger] es[i]).name),
                es[i].name,
            ) is None,
        dir::all_inserted(v, p, uuid, ag, d, es, k).2 is Ok,
    ensures
        ({
            let (p1, d1, _) = dir::all_inserted(v, p, uuid, ag, d, es, k);
            &&& dir_laws::in_order(v, p1.t, d1.m, hblk, r.0, r.1)
            &&& dir_growth::ready(v, p1, ag, r.2, d1.m)
        }),
        forall|hash: u64, name: Seq<char>| #[trigger]
            dir_model::lookup(r.0, r.1, hash, name) == among(
                uuid,
                es,
                k,
                hash,
                name,
                dir_model::lookup(h, bs, hash, name),
            ),
    decreases es.len() - k,
{
    if k >= es.len() {
        (h, bs, hdr)
    } else {
        let n = dir::MAX_SPLITS as int;
        let x = dir::hashed(uuid, es[k]);
        let (p1, d1, r1) = dir::hashed_inserted(v, p, ag, d, x, n);
        let hdr1 = dir_growth::lemma_inserts_grow(v, p, ag, hdr, d, hblk, h, bs, x, n);
        let (h1, bs1) = dir_laws::lemma_hashed_inserted(v, p, ag, d, hblk, h, bs, x, n);
        assert forall|i: int| k + 1 <= i < es.len() implies dir_model::lookup(
            h1,
            bs1,
            bucket::name_hash(uuid, (#[trigger] es[i]).name),
            es[i].name,
        ) is None by {
            assert(es[k].name != es[i].name);
        }
        let (h2, bs2, hdr2) = lemma_all_inserted(
            v,
            p1,
            uuid,
            ag,
            hdr1,
            d1,
            hblk,
            h1,
            bs1,
            es,
            k + 1,
        );
        assert forall|hash: u64, name: Seq<char>| #[trigger]
            dir_model::lookup(h2, bs2, hash, name) == among(
                uuid,
                es,
                k,
                hash,
                name,
                dir_model::lookup(h, bs, hash, name),
            ) by {
            assert(dir_model::lookup(h1, bs1, hash, name) == if hash == x.hash && name == x.name {
                Some(x)
            } else {
                dir_model::lookup(h, bs, hash, name)
            });
            dir_laws::lemma_entry_named(es, name, k + 1);
            if es[k].name == name {
                if let Some(i) = dir::entry_named(es, name, k + 1) {
                    assert(es[i].name == es[k].name);
                }
            }
        }
        (h2, bs2, hdr2)
    }
}

/// The embedded directory that is turned into a hashed one.
pub open spec fn outgrown(d: Dn) -> Dn {
    if d.m.format == FMT_EMPTY {
        Dn { m: Mp { format: FMT_EMBED, payload: fmt::zeros(INODE_PAYLOAD as nat) }, ..d }
    } else {
        d
    }
}

/// The entries of the directory that is turned into a hashed one.
pub open spec fn old_entries(d: Dn) -> Seq<Dirent> {
    dirent::dir_entries_of(outgrown(d).m.payload)
}

/// What such an insertion consists of, once it succeeds.
proof fn lemma_turned_shape(v: Vol, p: Pool, uuid: Seq<u8>, ag: u32, d: Dn, e: Dirent)
    requires
        d.m.format == FMT_EMPTY || d.m.format == FMT_EMBED,
        dirent::dir_appended(dir_laws::room(d.m), e) is Err,
        dir::inserted(v, p, uuid, ag, true, d, e).2 is Ok,
    ensures
        ({
            let (p1, d1, r1) = dir::hash_started(v, p, ag, outgrown(d));
            let (p2, d2, r2) = dir::all_inserted(v, p1, uuid, ag, d1, old_entries(d), 0);
            &&& r1 is Ok
            &&& r2 is Ok
            &&& dir::found(v, p2.t, uuid, true, d2.m, e.name) == Ok::<Option<Dirent>, FsError>(None)
            &&& d2.m.format == FMT_EXTENT || d2.m.format == FMT_TREE
            &&& dir::inserted(v, p, uuid, ag, true, d, e) == dir::hashed_inserted(
                v,
                p2,
                ag,
                d2,
                dir::hashed(uuid, e),
                dir::MAX_SPLITS as int,
            )
        }),
{
}

/// The state in which the old entries are hashed and the new one is not in yet.
proof fn lemma_turned(
    v: Vol,
    p: Pool,
    uuid: Seq<u8>,
    ag: u32,
    hdr: AgHeader,
    d: Dn,
    es: Seq<Dirent>,
) -> (r: (u64, Dh, Buckets, AgHeader))
    requires
        v.bs >= 2048,
        dir_laws::names_once(es),
        mapping_laws::grows_from(v, p, ag, hdr, Seq::empty()),
        steady_start(v, p, ag, d),
        dir::hash_started(v, p, ag, d).2 is Ok,
        ({
            let (p1, d1, _) = dir::hash_started(v, p, ag, d);
            let (p2, d2, r2) = dir::all_inserted(v, p1, uuid, ag, d1, es, 0);
            r2 is Ok && steady_all(v, p1, uuid, ag, d1, es, 0)
        }),
    ensures
        ({
            let (p1, d1, _) = dir::hash_started(v, p, ag, d);
            let (p2, d2, _) = dir::all_inserted(v, p1, uuid, ag, d1, es, 0);
            &&& dir_laws::in_order(v, p2.t, d2.m, r.0, r.1, r.2)
            &&& dir_growth::ready(v, p2, ag, r.3, d2.m)
        }),
        forall|hash: u64, name: Seq<char>| #[trigger]
            dir_model::lookup(r.1, r.2, hash, name) == among(uuid, es, 0, hash, name, None),
{
    let (p1, d1, _) = dir::hash_started(v, p, ag, d);
    let (hdr1, hblk) = lemma_hash_started(v, p, ag, hdr, d);
    lemma_empty_model();
    let (h2, bs2, hdr2) = lemma_all_inserted(
        v,
        p1,
        uuid,
        ag,
        hdr1,
        d1,
        hblk,
        empty_header(),
        empty_buckets(),
        es,
        0,
    );
    assert forall|hash: u64, name: Seq<char>| #[trigger]
        dir_model::lookup(h2, bs2, hash, name) == among(uuid, es, 0, hash, name, None) by {
        assert(dir_model::lookup(empty_header(), empty_buckets(), hash, name) is None);
    }
    (hblk, h2, bs2, hdr2)
}

/// No allocation that fails while an embedded directory is turned into a hashed one,
/// and takes the new entry, spoils the tables.
pub open spec fn steady_turn(v: Vol, p: Pool, uuid: Seq<u8>, ag: u32, d: Dn, e: Dirent) -> bool {
    let (p1, d1, _) = dir::hash_started(v, p, ag, outgrown(d));
    let (p2, d2, _) = dir::all_inserted(v, p1, uuid, ag, d1, old_entries(d), 0);
    &&& steady_start(v, p, ag, outgrown(d))
    &&& steady_all(v, p1, uuid, ag, d1, old_entries(d), 0)
    &&& dir_growth::steady_insert(
        v,
        p2,
        ag,
        d2,
        dir::hashed(uuid, e),
        dir::MAX_SPLITS as int,
    )
}

/// Inserting an entry that does not fit in an embedded directory any more: the
/// directory is hashed from there on; the entry is found under its name; every
/// other name finds what it found; and the directory is in order, ready to
/// grow, its blocks mapped by inline extents or by a tree. Left out is a group with
/// so little room that an allocation fails halfway through a change of the tables
/// themselves.
pub proof fn law_directory_turns_hashed(
    v: Vol,
    p: Pool,
    uuid: Seq<u8>,
    ag: u32,
    hdr: AgHeader,
    d: Dn,
    e: Dirent,
    other: Seq<char>,
) -> (r: (u64, Dh, Buckets, AgHeader))
    requires
        v.bs >= 2048,
        dir_laws::embedded(d.m),
        dirent::dir_appended(dir_laws::room(d.m), e) is Err,
        mapping_laws::grows_from(v, p, ag, hdr, Seq::empty()),
        steady_turn(v, p, uuid, ag, d, e),
        dir::inserted(v, p, uuid, ag, true, d, e).2 is Ok,
    ensures
        ({
            let (p1, d1, _) = dir::inserted(v, p, uuid, ag, true, d, e);
            &&& dir_laws::in_order(v, p1.t, d1.m, r.0, r.1, r.2)
            &&& dir_growth::ready(v, p1, ag, r.3, d1.m)
            &&& dir::found(v, p1.t, uuid, true, d1.m, e.name) == dir_laws::found_entry(e)
            &&& other != e.name ==> dir::found(v, p1.t, uuid, true, d1.m, other) == dir::found(
                v,
                p.t,
                uuid,
                true,
                d.m,
                other,
            )
        }),
{
    let d0 = outgrown(d);
    let es = old_entries(d);
    assert(dir_laws::names_once(es)) by {
        if d.m.format == FMT_EMPTY {
            dirent::lemma_zero_payload_clean(fmt::zeros(INODE_PAYLOAD as nat));
        }
    }
    let (p1, d1, _) = dir::hash_started(v, p, ag, d0);
    let (p2, d2, _) = dir::all_inserted(v, p1, uuid, ag, d1, es, 0);
    let n = dir::MAX_SPLITS as int;
    let x = dir::hashed(uuid, e);
    lemma_turned_shape(v, p, uuid, ag, d, e);
    let (p3, d3, _) = dir::hashed_inserted(v, p2, ag, d2, x, n);
    let (hblk, h2, bs2, hdr2) = lemma_turned(v, p, uuid, ag, hdr, d0, es);
    dir_laws::lemma_found(v, p2.t, uuid, d2.m, hblk, h2, bs2, e.name);
    let hdr3 = dir_growth::lemma_inserts_grow(v, p2, ag, hdr2, d2, hblk, h2, bs2, x, n);
    let (h3, bs3) = dir_laws::lemma_hashed_inserted(v, p2, ag, d2, hblk, h2, bs2, x, n);
    dir_laws::lemma_found(v, p3.t, uuid, d3.m, hblk, h3, bs3, e.name);
    dir_laws::lemma_found(v, p3.t, uuid, d3.m, hblk, h3, bs3, other);
    let oh = bucket::name_hash(uuid, other);
    assert(dir_model::lookup(h3, bs3, x.hash, e.name) == Some(x));
    if other != e.name {
        assert(dir_model::lookup(h3, bs3, oh, other) == dir_model::lookup(h2, bs2, oh, other));
        assert(dir_model::lookup(h2, bs2, oh, other) == among(uuid, es, 0, oh, other, None));
        lemma_old_found(v, p.t, uuid, d, other);
    }
    (hblk, h3, bs3, hdr3)
}

/// What was found in the directory before it was turned.
proof fn lemma_old_found(v: Vol, t: Map<u64, Seq<u8>>, uuid: Seq<u8>, d: Dn, name: Seq<char>)
    requires
        d.m.format == FMT_EMPTY || d.m.format == FMT_EMBED,
    ensures
        dir::found(v, t, uuid, true, d.m, name) == Ok::<Option<Dirent>, FsError>(
            dir_laws::plain(
                among(uuid, old_entries(d), 0, bucket::name_hash(uuid, name), name, None),
            ),
        ),
{
    let es = old_entries(d);
    dir_laws::lemma_entry_named(es, name, 0);
    if d.m.format == FMT_EMPTY {
        dirent::lemma_zero_payload_clean(fmt::zeros(INODE_PAYLOAD as nat));
    }
}

} // verus!
