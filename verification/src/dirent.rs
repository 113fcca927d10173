//! Directory entries embedded in an inode payload: repeated
//! `{ ino u64, type u8, name_len u8, name UTF-16BE }`, ended by an inode
//! number of zero or the end of the payload.

use crate::fmt::{get_u16, get_u64, put_u16, put_u64, FmtError, INODE_PAYLOAD};
use crate::utf16::utf16_units;
use vstd::prelude::*;

use crate::fmt;
use crate::utf16;

verus! {

#[derive(Debug, Clone)]
pub struct DirEntry {
    pub ino: u64,
    /// 1 = file, 2 = directory.
    pub ftype: u8,
    pub name: String,
}

/// What a `DirEntry` says.
#[verifier::ext_equal]
pub struct Dirent {
    pub ino: u64,
    pub ftype: u8,
    pub name: Seq<char>,
}

impl View for DirEntry {
    type V = Dirent;

    open spec fn view(&self) -> Dirent {
        Dirent { ino: self.ino, ftype: self.ftype, name: self.name@ }
    }
}

impl DirEntry {
    /// A copy of the entry.
    pub fn copy(&self) -> (r: DirEntry)
        ensures
            r@ == self@,
    {
        DirEntry { ino: self.ino, ftype: self.ftype, name: self.name.clone() }
    }
}

/// The views of a list of entries.
pub open spec fn dirents(v: Seq<DirEntry>) -> Seq<Dirent> {
    v.map_values(|e: DirEntry| e@)
}

/// `n` big-endian code units from `off` on.
pub open spec fn units_at(p: Seq<u8>, off: int, n: int) -> Seq<u16> {
    Seq::new(n as nat, |i: int| fmt::u16_at(p, off + 2 * i))
}

pub fn get_units(p: &[u8], off: usize, n: usize) -> (r: Vec<u16>)
    requires
        off + 2 * n <= p@.len(),
    ensures
        r@ == units_at(p@, off as int, n as int),
{
    assert(p.len() == p@.len());
    let mut units: Vec<u16> = Vec::new();
    let mut i: usize = 0;
    while i < n
        invariant
            i <= n,
            off + 2 * n <= p@.len(),
            p.len() == p@.len(),
            units@ == units_at(p@, off as int, i as int),
        decreases n - i,
    {
        units.push(get_u16(p, off + i * 2));
        i = i + 1;
        assert(units@ =~= units_at(p@, off as int, i as int));
    }
    units
}

/// Whether a whole entry stands at `off`.
pub open spec fn entry_ok(p: Seq<u8>, off: int) -> bool {
    off + 10 <= p.len() && fmt::u64_at(p, off) != 0 && off + 10 + 2 * p[off + 9] <= p.len()
}

pub open spec fn entry_at(p: Seq<u8>, off: int) -> Dirent {
    Dirent {
        ino: fmt::u64_at(p, off),
        ftype: p[off + 8],
        name: utf16::decode_utf16(units_at(p, off + 10, p[off + 9] as int)),
    }
}

/// The entries from `off` on.
pub open spec fn entries_from(p: Seq<u8>, off: int) -> Seq<Dirent>
    decreases p.len() - off,
{
    if entry_ok(p, off) {
        seq![entry_at(p, off)] + entries_from(p, off + 10 + 2 * p[off + 9])
    } else {
        Seq::empty()
    }
}

/// Where the entries from `off` on end.
pub open spec fn entries_end(p: Seq<u8>, off: int) -> int
    decreases p.len() - off,
{
    if entry_ok(p, off) {
        entries_end(p, off + 10 + 2 * p[off + 9])
    } else {
        off
    }
}

/// The entries of an embedded directory.
pub open spec fn dir_entries_of(p: Seq<u8>) -> Seq<Dirent> {
    entries_from(p, 0)
}

/// Bytes that an entry takes.
pub open spec fn entry_len(name: Seq<char>) -> int {
    10 + 2 * utf16::encode_utf16(name).len() as int
}

/// Bytes that a list of entries takes.
pub open spec fn entries_len(es: Seq<Dirent>) -> int
    decreases es.len(),
{
    if es.len() == 0 {
        0
    } else {
        entry_len(es[0].name) + entries_len(es.skip(1))
    }
}

pub open spec fn units_bytes(u: Seq<u16>) -> Seq<u8> {
    Seq::new(2 * u.len(), |i: int| fmt::be16(u[i / 2])[i % 2])
}

/// The encoding of an entry.
pub open spec fn entry_bytes(e: Dirent) -> Seq<u8> {
    let u = utf16::encode_utf16(e.name);
    fmt::be64(e.ino) + seq![e.ftype, u.len() as u8] + units_bytes(u)
}

pub fn dir_parse(payload: &[u8]) -> (r: Vec<DirEntry>)
    ensures
        dirents(r@) == dir_entries_of(payload@),
        r@.len() <= payload@.len(),
{
    let len = payload.len();
    let mut v: Vec<DirEntry> = Vec::new();
    let mut off: usize = 0;
    assert(dirents(v@) + entries_from(payload@, 0) =~= dir_entries_of(payload@));
    while len - off >= 10
        invariant
            off <= len == payload@.len(),
            v@.len() <= off,
            dirents(v@) + entries_from(payload@, off as int) == dir_entries_of(payload@),
        decreases len - off,
    {
        let ino = get_u64(payload, off);
        if ino == 0 {
            assert(dirents(v@) + entries_from(payload@, off as int) =~= dirents(v@));
            return v;
        }
        let ftype = payload[off + 8];
        let nlen = payload[off + 9] as usize;
        if len - off - 10 < nlen * 2 {
            assert(dirents(v@) + entries_from(payload@, off as int) =~= dirents(v@));
            return v;
        }
        let units = get_units(payload, off + 10, nlen);
        let e = DirEntry { ino, ftype, name: String::from_utf16_lossy(&units) };
        let ghost before = dirents(v@);
        let ghost next = off + 10 + 2 * nlen;
        proof {
            assert(e@ =~= entry_at(payload@, off as int));
            assert(before + (seq![e@] + entries_from(payload@, next)) =~= before.push(e@)
                + entries_from(payload@, next));
        }
        v.push(e);
        assert(dirents(v@) =~= before.push(e@));
        off = off + 10 + nlen * 2;
    }
    assert(dirents(v@) + entries_from(payload@, off as int) =~= dirents(v@));
    v
}

/// What appending `e` to the payload `p` gives.
pub open spec fn dir_appended(p: Seq<u8>, e: Dirent) -> Result<Seq<u8>, FmtError> {
    let n = utf16::encode_utf16(e.name).len();
    if n > 255 {
        Err(FmtError::NameTooLong)
    } else if entries_len(dir_entries_of(p)) + entry_len(e.name) > INODE_PAYLOAD {
        Err(FmtError::DirectoryFull)
    } else {
        Ok(fmt::splice(p, entries_len(dir_entries_of(p)), entry_bytes(e)))
    }
}

pub fn dir_append(payload: &mut [u8; 128], e: &DirEntry) -> (r: Result<(), FmtError>)
    ensures
        match dir_appended(old(payload)@, e@) {
            Ok(p) => r is Ok && final(payload)@ == p,
            Err(x) => r == Err::<(), FmtError>(x) && final(payload)@ == old(payload)@,
        },
{
    let units = utf16_units(e.name.as_str());
    let n = units.len();
    if n > 255 {
        return Err(FmtError::NameTooLong);
    }
    let old_entries = dir_parse(payload);
    let ghost es = dirents(old_entries@);
    let mut off: usize = 0;
    let mut k: usize = 0;
    proof {
        lemma_entries_len(payload@, 0);
        assert(es.skip(0) =~= es);
    }
    while k < old_entries.len()
        invariant
            k <= old_entries@.len(),
            es == dirents(old_entries@),
            off + entries_len(es.skip(k as int)) == entries_len(es),
            entries_len(es) <= 128,
        decreases old_entries@.len() - k,
    {
        let u = utf16_units(old_entries[k].name.as_str());
        proof {
            let rest = es.skip(k as int);
            assert(rest[0] == old_entries@[k as int]@);
            assert(rest.skip(1) =~= es.skip(k + 1));
            lemma_entries_len_nonneg(es.skip(k + 1));
        }
        off = off + 10 + u.len() * 2;
        k = k + 1;
    }
    if off + (10 + n * 2) > INODE_PAYLOAD {
        return Err(FmtError::DirectoryFull);
    }
    let ghost start = payload@;
    put_u64(payload, off, e.ino);
    payload[off + 8] = e.ftype;
    payload[off + 9] = n as u8;
    let ghost u = utf16::encode_utf16(e.name@);
    let ghost lead = fmt::be64(e.ino) + seq![e.ftype, n as u8];
    let mut i: usize = 0;
    assert(payload@ =~= fmt::splice(start, off as int, lead + units_bytes(u.take(0))));
    while i < n
        invariant
            i <= n == units@.len(),
            units@ == u,
            lead.len() == 10,
            start.len() == 128,
            off + 10 + 2 * n <= 128,
            payload@ == fmt::splice(start, off as int, lead + units_bytes(u.take(i as int))),
        decreases n - i,
    {
        put_u16(payload, off + 10 + i * 2, units[i]);
        i = i + 1;
        assert(payload@ =~= fmt::splice(start, off as int, lead + units_bytes(u.take(i as int))));
    }
    assert(u.take(n as int) =~= u);
    assert(lead + units_bytes(u) =~= entry_bytes(e@));
    Ok(())
}

pub proof fn lemma_entries_len_nonneg(es: Seq<Dirent>)
    ensures
        entries_len(es) >= 0,
    decreases es.len(),
{
    if es.len() > 0 {
        lemma_entries_len_nonneg(es.skip(1));
    }
}

/// The entries take exactly the bytes up to their end: a decoded name is as
/// long as the name it was decoded from.
pub proof fn lemma_entries_len(p: Seq<u8>, off: int)
    requires
        0 <= off <= p.len(),
    ensures
        off + entries_len(entries_from(p, off)) == entries_end(p, off),
        entries_end(p, off) <= p.len(),
    decreases p.len() - off,
{
    if entry_ok(p, off) {
        let n = p[off + 9] as int;
        let next = off + 10 + 2 * n;
        lemma_entries_len(p, next);
        utf16::lemma_decode_keeps_length(units_at(p, off + 10, n));
        let es = entries_from(p, off);
        assert(es.skip(1) =~= entries_from(p, next));
    }
}

/// Nothing but zeros stands behind the entries. A fresh payload has this, and
/// appending keeps it.
pub open spec fn dir_clean(p: Seq<u8>) -> bool {
    p.len() == INODE_PAYLOAD && fmt::zero_bytes(p, entries_end(p, 0), INODE_PAYLOAD as int)
}

/// Entries that lie before `at` do not change when bytes from `at` on do.
proof fn lemma_entries_prefix(p: Seq<u8>, q: Seq<u8>, off: int, at: int, es: Seq<Dirent>)
    requires
        0 <= off <= at <= p.len(),
        p.len() == q.len(),
        fmt::same_bytes(p, q, 0, at),
        at == entries_end(p, off),
        es == entries_from(q, at),
    ensures
        entries_from(q, off) == entries_from(p, off) + es,
        entries_end(q, off) == entries_end(q, at),
    decreases p.len() - off,
{
    lemma_entries_len(p, off);
    if entry_ok(p, off) {
        let n = p[off + 9] as int;
        let next = off + 10 + 2 * n;
        lemma_entries_len(p, next);
        lemma_entries_len_nonneg(entries_from(p, next));
        lemma_entries_prefix(p, q, next, at, es);
        assert(units_at(q, off + 10, n) =~= units_at(p, off + 10, n));
        assert(entry_ok(q, off));
        assert(entry_at(q, off) =~= entry_at(p, off));
        assert(entries_from(q, off) =~= entries_from(p, off) + es);
    } else {
        assert(entries_from(p, off) + es =~= es);
    }
}

/// Appending an entry to a clean payload adds that entry at the end of the
/// list and leaves the payload clean. An inode number of zero would end the
/// list.
pub proof fn law_dir_append_then_parse(p: Seq<u8>, e: Dirent)
    requires
        dir_clean(p),
        e.ino != 0,
    ensures
        match dir_appended(p, e) {
            Ok(q) => dir_clean(q) && dir_entries_of(q) == dir_entries_of(p).push(e),
            Err(_) => true,
        },
{
    if let Ok(q) = dir_appended(p, e) {
        lemma_entries_len(p, 0);
        let at = entries_end(p, 0);
        let u = utf16::encode_utf16(e.name);
        let bytes = entry_bytes(e);
        let next = at + bytes.len();
        assert(bytes.len() == entry_len(e.name));
        assert(q.subrange(at, at + 8) =~= fmt::be64(e.ino));
        fmt::lemma_range_u64(q, at, e.ino);
        assert(q[at + 8] == e.ftype);
        assert(q[at + 9] == u.len() as u8);
        assert(entry_ok(q, at));
        assert forall|i: int| 0 <= i < u.len() implies #[trigger] fmt::u16_at(q, at + 10 + 2 * i)
            == u[i] by {
            assert(q[at + 10 + 2 * i] == bytes[10 + 2 * i]);
            assert(q[at + 11 + 2 * i] == bytes[11 + 2 * i]);
            assert((2 * i) / 2 == i && (2 * i + 1) / 2 == i);
            assert(bytes[10 + 2 * i] == units_bytes(u)[2 * i]);
            assert(bytes[11 + 2 * i] == units_bytes(u)[2 * i + 1]);
            fmt::lemma_u16_of(q, at + 10 + 2 * i, u[i]);
        }
        assert(units_at(q, at + 10, u.len() as int) =~= u);
        utf16::law_utf16_round_trip(e.name);
        assert(entry_at(q, at) =~= e);
        assert(!entry_ok(q, next)) by {
            if next + 10 <= q.len() {
                assert(q[next] == 0 && q[next + 1] == 0 && q[next + 2] == 0 && q[next + 3] == 0);
                assert(q[next + 4] == 0 && q[next + 5] == 0 && q[next + 6] == 0 && q[next + 7]
                    == 0);
                assert(fmt::u64_at(q, next) == 0);
            }
        }
        assert(entries_from(q, next) =~= Seq::<Dirent>::empty());
        assert(entries_from(q, at) =~= seq![e]);
        assert(entries_end(q, next) == next);
        assert(entries_end(q, at) == entries_end(q, next));
        lemma_entries_prefix(p, q, 0, at, seq![e]);
        assert(entries_from(p, 0) + seq![e] =~= entries_from(p, 0).push(e));
    }
}

/// A zeroed payload is a clean empty directory.
pub proof fn lemma_zero_payload_clean(p: Seq<u8>)
    requires
        p == fmt::zeros(INODE_PAYLOAD as nat),
    ensures
        dir_clean(p),
        dir_entries_of(p) == Seq::<Dirent>::empty(),
{
    assert(fmt::u64_at(p, 0) == 0);
}

} // verus!
