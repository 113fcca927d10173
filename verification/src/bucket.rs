//! Hashed directories: name hashes, the header block and buckets.
//!
//! Header block ("5FSD"): generation at 8, global depth at 16, freelist count
//! at 18, bucket count at 20, the table of bucket numbers from 24 on, and the
//! freelist of reusable bucket numbers growing down from the end. Bucket
//! ("5FSb"): generation at 8, local depth at 16, entry count at 18, entries
//! from 24 on, each `{ ino u64, hash u64, type u8, pad, name_len u16, name }`,
//! the name in UTF-16BE, padded to 8-byte alignment.

use crate::dirent::{get_units, DirEntry};
use crate::error::FsError;
use crate::fmt::{get_u16, get_u64, put_magic, put_u16, put_u64, zero_vec, BUCKET_MAGIC};
use crate::utf16::utf16_units;
use vstd::prelude::*;

use crate::dirent;
use crate::fmt;
use crate::record;
use crate::utf16;

verus! {

/// Maximum global depth (the table must fit the header block at 4 KiB).
pub const MAX_DEPTH: u8 = 9;

pub const DH_HDR: usize = 24;

pub const BK_HDR: usize = 24;

/// Longest name, in UTF-16 code units.
pub const MAX_NAME: usize = 255;

// --- hashing ------------------------------------------------------------------

/// What SipHash-2-4 of the `siphasher` crate gives for two keys and a message.
pub uninterp spec fn sip24_of(k0: u64, k1: u64, data: Seq<u8>) -> u64;

/// `siphasher::sip::SipHasher24`, made with `new_with_keys`, fed the message by
/// `write` and read by `finish`: the result depends on keys and message alone.
#[verifier::external_body]
fn sip24(k0: u64, k1: u64, data: &[u8]) -> (r: u64)
    ensures
        r == sip24_of(k0, k1, data@),
{
    let mut h = siphasher::sip::SipHasher24::new_with_keys(k0, k1);
    std::hash::Hasher::write(&mut h, data);
    std::hash::Hasher::finish(&h)
}

/// The little-endian 64-bit value at `o`.
pub open spec fn le64_at(s: Seq<u8>, o: int) -> u64 {
    (s[o] + s[o + 1] * 0x100 + s[o + 2] * 0x1_0000 + s[o + 3] * 0x100_0000 + (s[o + 4] + s[o + 5]
        * 0x100 + s[o + 6] * 0x1_0000 + s[o + 7] * 0x100_0000) * 0x1_0000_0000) as u64
}

fn get_le64(s: &[u8; 16], o: usize) -> (r: u64)
    requires
        o + 8 <= 16,
    ensures
        r == le64_at(s@, o as int),
{
    let lo = s[o] as u64 + s[o + 1] as u64 * 0x100 + s[o + 2] as u64 * 0x1_0000 + s[o + 3] as u64
        * 0x100_0000;
    let hi = s[o + 4] as u64 + s[o + 5] as u64 * 0x100 + s[o + 6] as u64 * 0x1_0000 + s[o
        + 7] as u64 * 0x100_0000;
    lo + hi * 0x1_0000_0000
}

/// The hash of a name: SipHash-2-4 keyed by the volume's UUID, over the
/// UTF-16BE bytes of the name.
pub open spec fn name_hash(uuid: Seq<u8>, name: Seq<char>) -> u64 {
    sip24_of(
        le64_at(uuid, 0),
        le64_at(uuid, 8),
        dirent::units_bytes(utf16::encode_utf16(name)),
    )
}

/// The UTF-16BE bytes of code units.
fn bytes_of_units(u: &Vec<u16>) -> (r: Vec<u8>)
    ensures
        r@ == dirent::units_bytes(u@),
{
    let mut b: Vec<u8> = Vec::new();
    let mut i: usize = 0;
    assert(u@.take(0) =~= Seq::<u16>::empty());
    assert(b@ =~= dirent::units_bytes(u@.take(0)));
    while i < u.len()
        invariant
            i <= u@.len(),
            b@ == dirent::units_bytes(u@.take(i as int)),
        decreases u@.len() - i,
    {
        let x = u[i];
        b.push((x / 0x100) as u8);
        b.push((x % 0x100) as u8);
        i = i + 1;
        assert(b@ =~= dirent::units_bytes(u@.take(i as int)));
    }
    assert(u@.take(u@.len() as int) =~= u@);
    b
}

pub fn hash_name(uuid: &[u8; 16], name: &str) -> (r: u64)
    ensures
        r == name_hash(uuid@, name@),
{
    let k0 = get_le64(uuid, 0);
    let k1 = get_le64(uuid, 8);
    let bytes = bytes_of_units(&utf16_units(name));
    sip24(k0, k1, &bytes)
}

/// The table slot of a hash: its top `depth` bits.
pub open spec fn slot_of(hash: u64, depth: int) -> int {
    hash as int / record::two_to(64 - depth)
}

/// A table of `2^depth` slots has the slot of every hash.
pub proof fn lemma_slot_bound(hash: u64, depth: int)
    requires
        0 <= depth <= 64,
    ensures
        0 <= slot_of(hash, depth) < record::two_to(depth),
{
    lemma_two_to_sum(depth, 64 - depth);
    assert(record::two_to(64) == 0x1_0000_0000_0000_0000) by {
        reveal_with_fuel(record::two_to, 65);
    }
    lemma_two_to_pos(64 - depth);
    let d = record::two_to(64 - depth);
    let n = record::two_to(depth);
    assert(0 <= hash as int / d < n) by (nonlinear_arith)
        requires
            0 <= hash < n * d,
            d > 0,
    ;
}

pub proof fn lemma_two_to_pos(i: int)
    ensures
        record::two_to(i) >= 1,
    decreases i,
{
    if i > 0 {
        lemma_two_to_pos(i - 1);
    }
}

pub proof fn lemma_two_to_sum(i: int, j: int)
    requires
        0 <= i,
        0 <= j,
    ensures
        record::two_to(i) * record::two_to(j) == record::two_to(i + j),
    decreases i,
{
    if i > 0 {
        lemma_two_to_sum(i - 1, j);
        let a = record::two_to(i - 1);
        let b = record::two_to(j);
        assert((2 * a) * b == 2 * (a * b)) by (nonlinear_arith);
    } else {
        assert(1 * record::two_to(j) == record::two_to(j)) by (nonlinear_arith);
    }
}

/// `h` with its lowest `k` bits dropped.
fn drop_bits(h: u64, k: u32) -> (r: u64)
    requires
        k <= 64,
    ensures
        r == h as int / record::two_to(k as int),
{
    let mut r = h;
    let mut i: u32 = 0;
    assert(h as int / 1 == h);
    while i < k
        invariant
            i <= k,
            r == h as int / record::two_to(i as int),
        decreases k - i,
    {
        proof {
            lemma_two_to_pos(i as int);
            let d = record::two_to(i as int);
            let x = h as int;
            assert((x / d) / 2 == x / (2 * d)) by (nonlinear_arith)
                requires
                    d > 0,
                    x >= 0,
            ;
        }
        r = r / 2;
        i = i + 1;
    }
    r
}

pub fn bucket_index(hash: u64, depth: u8) -> (r: usize)
    requires
        depth <= 31,
    ensures
        r == slot_of(hash, depth as int),
        r < record::two_to(depth as int),
{
    proof {
        lemma_slot_bound(hash, depth as int);
        assert(record::two_to(31) == 0x8000_0000) by {
            reveal_with_fuel(record::two_to, 32);
        }
        lemma_two_to_monotonic(depth as int, 31);
    }
    drop_bits(hash, 64 - depth as u32) as usize
}

pub proof fn lemma_two_to_monotonic(i: int, j: int)
    requires
        0 <= i <= j,
    ensures
        record::two_to(i) <= record::two_to(j),
    decreases j,
{
    if i < j {
        lemma_two_to_monotonic(i, j - 1);
        lemma_two_to_pos(j - 1);
    }
}

/// Whether bit `k` of `h` is set.
pub fn bit_of(h: u64, k: u32) -> (r: bool)
    ensures
        r == record::bit_on(h as int, k as int),
{
    let mut m = h;
    let mut i = k;
    while i > 0
        invariant
            record::bit_on(h as int, k as int) == record::bit_on(m as int, i as int),
        decreases i,
    {
        m = m / 2;
        i = i - 1;
    }
    m % 2 == 1
}

// --- bucket entries -----------------------------------------------------------

/// A directory entry with its cached hash.
#[derive(Debug, Clone)]
pub struct HEntry {
    pub ino: u64,
    pub hash: u64,
    pub ftype: u8,
    pub name: String,
}

/// What an `HEntry` says.
#[verifier::ext_equal]
pub struct Hent {
    pub ino: u64,
    pub hash: u64,
    pub ftype: u8,
    pub name: Seq<char>,
}

impl View for HEntry {
    type V = Hent;

    open spec fn view(&self) -> Hent {
        Hent { ino: self.ino, hash: self.hash, ftype: self.ftype, name: self.name@ }
    }
}

pub open spec fn hents(v: Seq<HEntry>) -> Seq<Hent> {
    v.map_values(|e: HEntry| e@)
}

impl HEntry {
    /// A copy of the entry.
    pub fn copy(&self) -> (r: HEntry)
        ensures
            r@ == self@,
    {
        HEntry { ino: self.ino, hash: self.hash, ftype: self.ftype, name: self.name.clone() }
    }

    /// The entry without its hash.
    pub fn plain(&self) -> (r: DirEntry)
        ensures
            r@ == dirent_of(self@),
    {
        DirEntry { ino: self.ino, ftype: self.ftype, name: self.name.clone() }
    }
}

pub open spec fn dirent_of(e: Hent) -> dirent::Dirent {
    dirent::Dirent { ino: e.ino, ftype: e.ftype, name: e.name }
}

/// Bytes that an entry with a name of `n` code units takes.
pub open spec fn slot_size(n: int) -> int {
    (20 + 2 * n + 7) / 8 * 8
}

pub open spec fn hent_size(e: Hent) -> int {
    slot_size(utf16::encode_utf16(e.name).len() as int)
}

/// Bytes that the entries take together.
pub open spec fn hents_size(es: Seq<Hent>) -> int
    decreases es.len(),
{
    if es.len() == 0 {
        0
    } else {
        hents_size(es.drop_last()) + hent_size(es.last())
    }
}

pub fn entry_size(name_units: usize) -> (r: usize)
    requires
        name_units <= 0x4000_0000,
    ensures
        r == slot_size(name_units as int),
{
    (20 + 2 * name_units + 7) / 8 * 8
}

/// The entry at `off`, if it lies within the block.
pub open spec fn hent_at(b: Seq<u8>, off: int) -> Option<Hent> {
    if off + 20 > b.len() || off + 20 + 2 * fmt::u16_at(b, off + 18) > b.len() {
        None
    } else {
        Some(
            Hent {
                ino: fmt::u64_at(b, off),
                hash: fmt::u64_at(b, off + 8),
                ftype: b[off + 16],
                name: utf16::decode_utf16(
                    dirent::units_at(b, off + 20, fmt::u16_at(b, off + 18) as int),
                ),
            },
        )
    }
}

/// The `n` entries from `off` on; `None` if they run past the block.
pub open spec fn hents_at(b: Seq<u8>, off: int, n: int) -> Option<Seq<Hent>>
    decreases n,
{
    if n <= 0 {
        Some(Seq::empty())
    } else {
        match hent_at(b, off) {
            None => None,
            Some(e) => match hents_at(b, off + slot_size(fmt::u16_at(b, off + 18) as int), n - 1) {
                None => None,
                Some(rest) => Some(seq![e] + rest),
            },
        }
    }
}

/// The entries of a bucket.
pub fn bucket_entries(buf: &Vec<u8>) -> (r: Result<Vec<HEntry>, FsError>)
    requires
        24 <= buf@.len() <= 0x8000_0000,
    ensures
        match r {
            Ok(v) => hents_at(buf@, 24, fmt::u16_at(buf@, 18) as int) == Some(hents(v@)) && v@.len()
                <= 65535,
            Err(e) => e == FsError::Corrupt && hents_at(
                buf@,
                24,
                fmt::u16_at(buf@, 18) as int,
            ) is None,
        },
{
    let count = get_u16(buf, 18) as usize;
    let mut v: Vec<HEntry> = Vec::new();
    let mut off: usize = BK_HDR;
    let mut i: usize = 0;
    let ghost all = hents_at(buf@, 24, count as int);
    proof {
        if let Some(s) = all {
            assert(hents(v@) + s =~= s);
        }
    }
    while i < count
        invariant
            i <= count <= 65535,
            24 <= buf@.len() <= 0x8000_0000,
            v@.len() == i,
            off <= buf@.len() + 16,
            all == hents_at(buf@, 24, fmt::u16_at(buf@, 18) as int),
            match hents_at(buf@, off as int, count - i) {
                Some(rest) => all == Some(hents(v@) + rest),
                None => all is None,
            },
        decreases count - i,
    {
        let len = buf.len();
        if off > len || len - off < 20 {
            return Err(FsError::Corrupt);
        }
        let nlen = get_u16(buf, off + 18) as usize;
        if len - off - 20 < nlen * 2 {
            return Err(FsError::Corrupt);
        }
        let ino = get_u64(buf, off);
        let hash = get_u64(buf, off + 8);
        let ftype = buf[off + 16];
        let units = get_units(buf, off + 20, nlen);
        let e = HEntry { ino, hash, ftype, name: String::from_utf16_lossy(&units) };
        let ghost before = hents(v@);
        let ghost next = off + slot_size(nlen as int);
        proof {
            assert(hent_at(buf@, off as int) == Some(e@));
            let rest = hents_at(buf@, next, count - i - 1);
            if let Some(s) = rest {
                assert(before + (seq![e@] + s) =~= before.push(e@) + s);
            }
        }
        v.push(e);
        assert(hents(v@) =~= before.push(e@));
        off = off + entry_size(nlen);
        i = i + 1;
    }
    assert(hents(v@) + Seq::<Hent>::empty() =~= hents(v@));
    Ok(v)
}

/// The encoding of an entry, with its padding.
pub open spec fn hent_bytes(e: Hent) -> Seq<u8> {
    let u = utf16::encode_utf16(e.name);
    fmt::be64(e.ino) + fmt::be64(e.hash) + seq![e.ftype, 0u8] + fmt::be16(u.len() as u16)
        + dirent::units_bytes(u) + fmt::zeros((hent_size(e) - 20 - 2 * u.len()) as nat)
}

pub open spec fn hents_bytes(es: Seq<Hent>) -> Seq<u8>
    decreases es.len(),
{
    if es.len() == 0 {
        Seq::empty()
    } else {
        hents_bytes(es.drop_last()) + hent_bytes(es.last())
    }
}

/// Whether the entries fit a bucket of `bs` bytes, their count and name
/// lengths their fields.
pub open spec fn bucket_ok(bs: int, es: Seq<Hent>) -> bool {
    &&& BK_HDR + hents_size(es) <= bs
    &&& es.len() <= u16::MAX
    &&& forall|i: int|
        0 <= i < es.len() ==> utf16::encode_utf16((#[trigger] es[i]).name).len() <= u16::MAX
}

/// The bytes of a bucket before generation and checksum are filled in.
pub open spec fn bucket_body(bs: int, depth: u8, es: Seq<Hent>) -> Seq<u8> {
    let b = fmt::splice(fmt::zeros(bs as nat), 0, BUCKET_MAGIC@).update(16, depth);
    fmt::splice(fmt::splice(b, 18, fmt::be16(es.len() as u16)), BK_HDR as int, hents_bytes(es))
}

pub proof fn lemma_hents_bytes_len(es: Seq<Hent>)
    ensures
        hents_bytes(es).len() == hents_size(es),
        hents_size(es) >= 0,
    decreases es.len(),
{
    if es.len() > 0 {
        lemma_hents_bytes_len(es.drop_last());
    }
}

proof fn lemma_hents_size_monotonic(es: Seq<Hent>, i: int)
    requires
        0 <= i <= es.len(),
    ensures
        hents_size(es.take(i)) <= hents_size(es),
    decreases es.len() - i,
{
    if i < es.len() {
        lemma_hents_size_monotonic(es, i + 1);
        assert(es.take(i + 1).drop_last() =~= es.take(i));
    } else {
        assert(es.take(i) =~= es);
    }
}

/// Write one entry at `off`.
#[verifier::rlimit(30)]
fn put_entry(buf: &mut Vec<u8>, off: usize, e: &HEntry, units: &Vec<u16>)
    requires
        units@ == utf16::encode_utf16(e.name@),
        units@.len() <= u16::MAX,
        off + hent_size(e@) <= old(buf)@.len(),
        fmt::zero_bytes(old(buf)@, off as int, old(buf)@.len() as int),
    ensures
        final(buf)@ == fmt::splice(old(buf)@, off as int, hent_bytes(e@)),
{
    let ghost b0 = buf@;
    let ghost u = units@;
    let n = units.len();
    assert(buf.len() == buf@.len());
    put_u64(buf, off, e.ino);
    put_u64(buf, off + 8, e.hash);
    buf.set(off + 16, e.ftype);
    put_u16(buf, off + 18, n as u16);
    let ghost lead = fmt::be64(e.ino) + fmt::be64(e.hash) + seq![e.ftype, 0u8] + fmt::be16(
        n as u16,
    );
    assert(lead.len() == 20);
    assert(buf@ =~= fmt::splice(b0, off as int, lead + dirent::units_bytes(u.take(0))));
    let mut i: usize = 0;
    while i < n
        invariant
            i <= n == u.len(),
            u == units@,
            buf.len() == buf@.len(),
            lead.len() == 20,
            off + 20 + 2 * n <= b0.len(),
            buf@.len() == b0.len(),
            buf@ == fmt::splice(b0, off as int, lead + dirent::units_bytes(u.take(i as int))),
        decreases n - i,
    {
        put_u16(buf, off + 20 + i * 2, units[i]);
        i = i + 1;
        assert(buf@ =~= fmt::splice(b0, off as int, lead + dirent::units_bytes(u.take(i as int))));
    }
    assert(u.take(n as int) =~= u);
    assert(buf@ =~= fmt::splice(b0, off as int, hent_bytes(e@)));
}

/// The bytes of a bucket, without generation and checksum.
pub fn bucket_build(bs: usize, local_depth: u8, entries: &Vec<HEntry>) -> (r: Result<
    Vec<u8>,
    FsError,
>)
    requires
        24 <= bs <= 0x8000_0000,
    ensures
        match r {
            Ok(b) => bucket_ok(bs as int, hents(entries@)) && b@ == bucket_body(
                bs as int,
                local_depth,
                hents(entries@),
            ) && b@.len() == bs,
            Err(e) => e == FsError::BucketOverflow && !bucket_ok(bs as int, hents(entries@)),
        },
{
    let mut buf = zero_vec(bs);
    assert(buf@ =~= fmt::zeros(bs as nat));
    let ghost es = hents(entries@);
    if entries.len() > 65535 {
        return Err(FsError::BucketOverflow);
    }
    put_magic(&mut buf, &BUCKET_MAGIC);
    buf.set(16, local_depth);
    put_u16(&mut buf, 18, entries.len() as u16);
    let ghost base = buf@;
    let mut off: usize = BK_HDR;
    let mut i: usize = 0;
    assert(es.take(0) =~= Seq::<Hent>::empty());
    assert(buf@ =~= fmt::splice(base, 24, hents_bytes(es.take(0))));
    while i < entries.len()
        invariant
            i <= entries@.len() == es.len(),
            es == hents(entries@),
            24 <= bs <= 0x8000_0000,
            base.len() == bs == buf@.len(),
            fmt::zero_bytes(base, 24, bs as int),
            off == 24 + hents_size(es.take(i as int)),
            off <= bs,
            buf@ == fmt::splice(base, 24, hents_bytes(es.take(i as int))),
            forall|k: int|
                0 <= k < i ==> utf16::encode_utf16((#[trigger] es[k]).name).len() <= u16::MAX,
        decreases entries@.len() - i,
    {
        let e = &entries[i];
        let units = utf16_units(e.name.as_str());
        proof {
            assert(es[i as int] == e@);
            assert(es.take(i + 1).drop_last() =~= es.take(i as int));
            assert(es.take(i + 1).last() == e@);
            lemma_hents_size_monotonic(es, i + 1);
            lemma_hents_bytes_len(es.take(i as int));
            lemma_hents_bytes_len(es.take(i + 1));
        }
        if units.len() > 65535 || off + entry_size(units.len()) > bs {
            return Err(FsError::BucketOverflow);
        }
        let ghost prev = buf@;
        put_entry(&mut buf, off, e, &units);
        proof {
            assert(buf@ =~= fmt::splice(base, 24, hents_bytes(es.take(i + 1))));
        }
        off = off + entry_size(units.len());
        i = i + 1;
    }
    assert(es.take(es.len() as int) =~= es);
    Ok(buf)
}

/// Bytes that the entries take together, if they fit `bs` bytes.
pub fn entries_size(entries: &Vec<HEntry>, bs: usize) -> (r: Option<usize>)
    requires
        bs <= 0x8000_0000,
    ensures
        match r {
            Some(n) => n == hents_size(hents(entries@)) && n <= bs,
            None => hents_size(hents(entries@)) > bs,
        },
{
    let ghost es = hents(entries@);
    let mut n: usize = 0;
    let mut i: usize = 0;
    assert(es.take(0) =~= Seq::<Hent>::empty());
    while i < entries.len()
        invariant
            i <= entries@.len() == es.len(),
            es == hents(entries@),
            n == hents_size(es.take(i as int)),
            n <= bs <= 0x8000_0000,
        decreases entries@.len() - i,
    {
        let units = utf16_units(entries[i].name.as_str());
        proof {
            assert(es[i as int] == entries@[i as int]@);
            assert(es.take(i + 1).drop_last() =~= es.take(i as int));
            assert(es.take(i + 1).last() == es[i as int]);
            lemma_hents_size_monotonic(es, i + 1);
        }
        if units.len() > 0x4000_0000 || entry_size(units.len()) > bs - n {
            return None;
        }
        n = n + entry_size(units.len());
        i = i + 1;
    }
    assert(es.take(es.len() as int) =~= es);
    Some(n)
}

/// Whether the entries and one more fit a bucket.
pub open spec fn fits_with(bs: int, es: Seq<Hent>, add: Hent) -> bool {
    BK_HDR + hents_size(es) + hent_size(add) <= bs
}

} // verus!
