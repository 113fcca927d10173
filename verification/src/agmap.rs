//! The AG map: how a block address becomes a physical device offset.

use crate::fmt::{
    blk_split, csum, get_u16, get_u32, get_u64, put_magic, put_u16, put_u32, put_u64, zero_vec,
    FmtError, AGF_PRESENT, AGMAP_MAGIC,
};
use vstd::prelude::*;

use crate::fmt;

verus! {

#[derive(Debug, Clone, Copy, PartialEq, Eq, Structural)]
pub struct AgSegment {
    /// First block of the group that this segment maps.
    pub ag_block: u32,
    /// Length in blocks.
    pub blocks: u32,
    /// Physical byte offset.
    pub dev_offset: u64,
}

#[derive(Debug, Clone)]
pub struct AgEntry {
    pub flags: u16,
    /// Group length in blocks.
    pub length: u32,
    pub segs: Vec<AgSegment>,
}

#[derive(Debug, Clone)]
pub struct AgMap {
    pub gen: u64,
    pub entries: Vec<AgEntry>,
}

/// What an `AgEntry` says.
#[verifier::ext_equal]
pub struct Group {
    pub flags: u16,
    pub length: u32,
    pub segs: Seq<AgSegment>,
}

impl View for AgEntry {
    type V = Group;

    open spec fn view(&self) -> Group {
        Group { flags: self.flags, length: self.length, segs: self.segs@ }
    }
}

/// What an `AgMap` says.
#[verifier::ext_equal]
pub struct Groups {
    pub gen: u64,
    pub entries: Seq<Group>,
}

impl View for AgMap {
    type V = Groups;

    open spec fn view(&self) -> Groups {
        Groups { gen: self.gen, entries: self.entries@.map_values(|e: AgEntry| e@) }
    }
}

/// magic(4) csum(4) gen(8) entry_count(4) used_len(4)
pub const AGMAP_HDR: usize = 24;

// --- encoding -----------------------------------------------------------------

pub open spec fn seg_bytes(s: AgSegment) -> Seq<u8> {
    fmt::be32(s.ag_block) + fmt::be32(s.blocks) + fmt::be64(s.dev_offset)
}

pub open spec fn segs_bytes(segs: Seq<AgSegment>) -> Seq<u8>
    decreases segs.len(),
{
    if segs.len() == 0 {
        Seq::empty()
    } else {
        segs_bytes(segs.drop_last()) + seg_bytes(segs.last())
    }
}

pub open spec fn group_bytes(g: Group) -> Seq<u8> {
    fmt::be16(g.flags) + fmt::be16(g.segs.len() as u16) + fmt::be32(g.length) + segs_bytes(g.segs)
}

pub open spec fn groups_bytes(gs: Seq<Group>) -> Seq<u8>
    decreases gs.len(),
{
    if gs.len() == 0 {
        Seq::empty()
    } else {
        groups_bytes(gs.drop_last()) + group_bytes(gs.last())
    }
}

/// Bytes that the encoding of `gs` takes, header included.
pub open spec fn groups_size(gs: Seq<Group>) -> int
    decreases gs.len(),
{
    if gs.len() == 0 {
        AGMAP_HDR as int
    } else {
        groups_size(gs.drop_last()) + 8 + 16 * gs.last().segs.len()
    }
}

/// Header and entries of the encoding, before the checksum is filled in.
pub open spec fn map_body(m: Groups) -> Seq<u8> {
    AGMAP_MAGIC@ + fmt::zeros(4) + fmt::be64(m.gen) + fmt::be32(m.entries.len() as u32) + fmt::be32(
        groups_size(m.entries) as u32,
    ) + groups_bytes(m.entries)
}

/// The encoding of `m` in `capacity` bytes: the sealed body and zeros behind.
#[verifier::opaque]
pub open spec fn map_image(m: Groups, capacity: int) -> Seq<u8> {
    let body = fmt::sealed(map_body(m));
    body + fmt::zeros((capacity - body.len()) as nat)
}

// --- decoding -----------------------------------------------------------------

pub open spec fn seg_at(b: Seq<u8>, off: int) -> AgSegment {
    AgSegment {
        ag_block: fmt::u32_at(b, off),
        blocks: fmt::u32_at(b, off + 4),
        dev_offset: fmt::u64_at(b, off + 8),
    }
}

pub open spec fn segs_at(b: Seq<u8>, off: int, n: int) -> Seq<AgSegment> {
    Seq::new(n as nat, |i: int| seg_at(b, off + 16 * i))
}

/// The `n` entries from `off` on, all within the first `used` bytes.
pub open spec fn groups_at(b: Seq<u8>, off: int, used: int, n: int) -> Result<Seq<Group>, FmtError>
    decreases n,
{
    if n <= 0 {
        Ok(Seq::empty())
    } else if off + 8 > used {
        Err(FmtError::TruncatedEntry)
    } else {
        let nseg = fmt::u16_at(b, off + 2) as int;
        if off + 8 + 16 * nseg > used {
            Err(FmtError::TruncatedSegment)
        } else {
            let g = Group {
                flags: fmt::u16_at(b, off),
                length: fmt::u32_at(b, off + 4),
                segs: segs_at(b, off + 8, nseg),
            };
            match groups_at(b, off + 8 + 16 * nseg, used, n - 1) {
                Ok(rest) => Ok(seq![g] + rest),
                Err(e) => Err(e),
            }
        }
    }
}

/// The map that `b` holds, or what is wrong with it.
pub open spec fn map_parse(b: Seq<u8>) -> Result<Groups, FmtError> {
    let used = fmt::u32_at(b, 20) as int;
    if b.len() < AGMAP_HDR || !fmt::has_magic(b, AGMAP_MAGIC) {
        Err(FmtError::BadMagic)
    } else if used < AGMAP_HDR || used > b.len() {
        Err(FmtError::BadLength)
    } else if fmt::u32_at(b, 4) != fmt::csum_of(b.take(used), 4) {
        Err(FmtError::BadChecksum)
    } else {
        match groups_at(b, AGMAP_HDR as int, used, fmt::u32_at(b, 16) as int) {
            Ok(entries) => Ok(Groups { gen: fmt::u64_at(b, 8), entries }),
            Err(e) => Err(e),
        }
    }
}

// --- resolution ---------------------------------------------------------------

pub open spec fn seg_covers(s: AgSegment, local: u32) -> bool {
    s.ag_block <= local < s.ag_block + s.blocks
}

/// The first segment that maps block `local`.
pub open spec fn find_seg(segs: Seq<AgSegment>, local: u32) -> Option<AgSegment>
    decreases segs.len(),
{
    if segs.len() == 0 {
        None
    } else if seg_covers(segs[0], local) {
        Some(segs[0])
    } else {
        find_seg(segs.skip(1), local)
    }
}

/// Whether a group is there to be read and written.
pub open spec fn is_present(flags: u16) -> bool {
    flags % 2 == 1
}

/// The physical byte offset of a block address; `None` if the address is not
/// mapped, or is mapped past the last 64-bit offset.
pub open spec fn resolve_in(gs: Seq<Group>, addr: u64, bs: u32) -> Option<u64> {
    let ag = fmt::addr_ag(addr) as int;
    let local = fmt::addr_local(addr);
    if ag < gs.len() && is_present(gs[ag].flags) && local < gs[ag].length {
        match find_seg(gs[ag].segs, local) {
            Some(s) => {
                let off = s.dev_offset + (local - s.ag_block) * bs;
                if off <= u64::MAX {
                    Some(off as u64)
                } else {
                    None
                }
            },
            None => None,
        }
    } else {
        None
    }
}

/// `flags & AGF_PRESENT` is the lowest bit.
pub proof fn lemma_present_bit(flags: u16)
    ensures
        (flags & AGF_PRESENT != 0) == is_present(flags),
{
    assert((flags & 1 != 0) == (flags % 2 == 1)) by (bit_vector);
}

impl AgMap {
    pub fn to_bytes(&self, capacity: usize) -> (r: Result<Vec<u8>, FmtError>)
        requires
            capacity >= AGMAP_HDR,
        ensures
            match r {
                Ok(b) => groups_size(self@.entries) <= capacity && b@ == map_image(
                    self@,
                    capacity as int,
                ),
                Err(e) => e == FmtError::CapacityExceeded && groups_size(self@.entries) > capacity,
            },
    {
        proof {
            reveal(map_image);
        }
        let mut b = zero_vec(capacity);
        put_magic(&mut b, &AGMAP_MAGIC);
        put_u64(&mut b, 8, self.gen);
        put_u32(&mut b, 16, self.entries.len() as u32);
        let ghost head = b@.take(24);
        let ghost gs = self@.entries;
        let mut off: usize = AGMAP_HDR;
        let mut i: usize = 0;
        assert(gs.take(0) =~= Seq::<Group>::empty());
        assert(b@ =~= head + groups_bytes(gs.take(0)) + fmt::zeros((capacity - 24) as nat));
        while i < self.entries.len()
            invariant
                i <= self.entries@.len(),
                gs == self@.entries,
                gs.len() == self.entries@.len(),
                capacity >= AGMAP_HDR,
                off <= capacity,
                head.len() == 24,
                off == groups_size(gs.take(i as int)),
                off == 24 + groups_bytes(gs.take(i as int)).len(),
                b@ == head + groups_bytes(gs.take(i as int)) + fmt::zeros((capacity - off) as nat),
                b@.len() == capacity,
            decreases self.entries@.len() - i,
        {
            let e = &self.entries[i];
            let n = e.segs.len();
            let ghost before = gs.take(i as int);
            let ghost after = gs.take(i + 1);
            proof {
                assert(gs[i as int] == e@);
                assert(after.drop_last() =~= before);
                assert(after.last() == e@);
            }
            if capacity - off < 8 || (capacity - off - 8) / 16 < n {
                proof {
                    lemma_size_monotonic(gs, i + 1, gs.len() as int);
                    assert(gs.take(gs.len() as int) =~= gs);
                }
                return Err(FmtError::CapacityExceeded);
            }
            let ghost done = head + groups_bytes(before);
            let ghost start = off as int;
            put_u16(&mut b, off, e.flags);
            put_u16(&mut b, off + 2, n as u16);
            put_u32(&mut b, off + 4, e.length);
            off = off + 8;
            let ghost lead = fmt::be16(e.flags) + fmt::be16(n as u16) + fmt::be32(e.length);
            let mut j: usize = 0;
            assert(e.segs@.take(0) =~= Seq::<AgSegment>::empty());
            assert(b@ =~= done + lead + segs_bytes(e.segs@.take(0)) + fmt::zeros(
                (capacity - off) as nat,
            ));
            while j < n
                invariant
                    j <= n == e.segs@.len(),
                    start + 8 + 16 * n <= capacity,
                    off == start + 8 + 16 * j,
                    done.len() == start,
                    lead.len() == 8,
                    segs_bytes(e.segs@.take(j as int)).len() == 16 * j,
                    b@ == done + lead + segs_bytes(e.segs@.take(j as int)) + fmt::zeros(
                        (capacity - off) as nat,
                    ),
                    b@.len() == capacity,
                decreases n - j,
            {
                let s = e.segs[j];
                let ghost prev = b@;
                put_u32(&mut b, off, s.ag_block);
                put_u32(&mut b, off + 4, s.blocks);
                put_u64(&mut b, off + 8, s.dev_offset);
                off = off + 16;
                proof {
                    let segs2 = e.segs@.take(j + 1);
                    assert(segs2.drop_last() =~= e.segs@.take(j as int));
                    assert(segs2.last() == s);
                    assert(segs_bytes(segs2) =~= segs_bytes(e.segs@.take(j as int)) + seg_bytes(s));
                    assert(b@ =~= done + lead + segs_bytes(segs2) + fmt::zeros(
                        (capacity - off) as nat,
                    ));
                }
                j = j + 1;
            }
            proof {
                assert(e.segs@.take(n as int) =~= e.segs@);
                assert(lead + segs_bytes(e.segs@) =~= group_bytes(e@));
                assert(groups_bytes(after) =~= groups_bytes(before) + group_bytes(e@));
                assert(b@ =~= head + groups_bytes(after) + fmt::zeros((capacity - off) as nat));
            }
            i = i + 1;
        }
        assert(gs.take(gs.len() as int) =~= gs);
        let ghost full = b@;
        put_u32(&mut b, 20, off as u32);
        let c = csum(&b[0..off], 4);
        let ghost body = map_body(self@);
        assert(b@.take(off as int) =~= body);
        put_u32(&mut b, 4, c);
        assert(b@ =~= map_image(self@, capacity as int));
        Ok(b)
    }

    #[verifier::loop_isolation(false)]
    pub fn parse(b: &[u8]) -> (r: Result<Self, FmtError>)
        ensures
            match r {
                Ok(m) => map_parse(b@) == Ok::<Groups, FmtError>(m@),
                Err(e) => map_parse(b@) == Err::<Groups, FmtError>(e),
            },
    {
        let len = b.len();
        if len < AGMAP_HDR || !fmt::magic_is(b, &AGMAP_MAGIC) {
            return Err(FmtError::BadMagic);
        }
        let used = get_u32(b, 20) as usize;
        if used < AGMAP_HDR || used > len {
            return Err(FmtError::BadLength);
        }
        assert(b@.subrange(0, used as int) =~= b@.take(used as int));
        if get_u32(b, 4) != csum(&b[0..used], 4) {
            return Err(FmtError::BadChecksum);
        }
        let count = get_u32(b, 16) as usize;
        let mut entries: Vec<AgEntry> = Vec::new();
        let mut off: usize = AGMAP_HDR;
        let mut k: usize = 0;
        let ghost all = groups_at(b@, 24, used as int, count as int);
        let ghost mut got: Seq<Group> = Seq::empty();
        assert(entries@.map_values(|e: AgEntry| e@) =~= got);
        proof {
            if let Ok(s) = all {
                assert(got + s =~= s);
            }
        }
        while k < count
            invariant
                k <= count,
                AGMAP_HDR <= off <= used <= len == b@.len(),
                got == entries@.map_values(|e: AgEntry| e@),
                all == groups_at(b@, 24, used as int, count as int),
                match groups_at(b@, off as int, used as int, count - k) {
                    Ok(rest) => all == Ok::<Seq<Group>, FmtError>(got + rest),
                    Err(e) => all == Err::<Seq<Group>, FmtError>(e),
                },
            decreases count - k,
        {
            if used - off < 8 {
                return Err(FmtError::TruncatedEntry);
            }
            let flags = get_u16(b, off);
            let nseg = get_u16(b, off + 2) as usize;
            let length = get_u32(b, off + 4);
            let start = off + 8;
            let mut segs: Vec<AgSegment> = Vec::new();
            let mut j: usize = 0;
            while j < nseg
                invariant
                    j <= nseg <= 65535,
                    used <= len == b@.len(),
                    off + 8 == start,
                    off + 8 <= used,
                    start + 16 * j <= used,
                    segs@ == segs_at(b@, start as int, j as int),
                    nseg == fmt::u16_at(b@, off + 2),
                    k < count,
                    all == groups_at(b@, 24, used as int, count as int),
                    match groups_at(b@, off as int, used as int, count - k) {
                        Ok(rest) => all == Ok::<Seq<Group>, FmtError>(got + rest),
                        Err(e) => all == Err::<Seq<Group>, FmtError>(e),
                    },
                decreases nseg - j,
            {
                let o = start + 16 * j;
                if used - o < 16 {
                    return Err(FmtError::TruncatedSegment);
                }
                let s = AgSegment {
                    ag_block: get_u32(b, o),
                    blocks: get_u32(b, o + 4),
                    dev_offset: get_u64(b, o + 8),
                };
                segs.push(s);
                j = j + 1;
                assert(segs@ =~= segs_at(b@, start as int, j as int));
            }
            let e = AgEntry { flags, length, segs };
            proof {
                let rest = groups_at(b@, start + 16 * nseg, used as int, count - k - 1);
                if let Ok(r) = rest {
                    assert(got + (seq![e@] + r) =~= got.push(e@) + r);
                }
                got = got.push(e@);
            }
            entries.push(e);
            assert(entries@.map_values(|e: AgEntry| e@) =~= got);
            off = start + 16 * nseg;
            k = k + 1;
        }
        assert(got + Seq::<Group>::empty() =~= got);
        Ok(AgMap { gen: get_u64(b, 8), entries })
    }

    /// Resolve a block address to a physical byte offset.
    pub fn resolve(&self, addr: u64, blocksize: u32) -> (r: Option<u64>)
        ensures
            r == resolve_in(self@.entries, addr, blocksize),
    {
        let (ag, local) = blk_split(addr);
        let agi = ag as usize;
        if agi >= self.entries.len() {
            return None;
        }
        let e = &self.entries[agi];
        proof {
            lemma_present_bit(e.flags);
            assert(self@.entries[ag as int] == e@);
        }
        if e.flags & AGF_PRESENT == 0 || local >= e.length {
            return None;
        }
        let mut i: usize = 0;
        assert(e.segs@.skip(0) =~= e.segs@);
        while i < e.segs.len()
            invariant
                i <= e.segs@.len(),
                find_seg(e.segs@, local) == find_seg(e.segs@.skip(i as int), local),
                self@.entries[ag as int] == e@,
                ag < self@.entries.len(),
                is_present(e.flags),
                local < e.length,
                ag == fmt::addr_ag(addr),
                local == fmt::addr_local(addr),
            decreases e.segs@.len() - i,
        {
            let s = e.segs[i];
            if local >= s.ag_block && (local as u64) < s.ag_block as u64 + s.blocks as u64 {
                let d = (local - s.ag_block) as u64;
                assert(d * blocksize <= 0xffff_ffff * 0xffff_ffff) by (nonlinear_arith)
                    requires
                        d <= 0xffff_ffff,
                        0 <= blocksize <= 0xffff_ffff,
                ;
                return s.dev_offset.checked_add(d * blocksize as u64);
            }
            assert(e.segs@.skip(i as int).skip(1) =~= e.segs@.skip(i + 1));
            i = i + 1;
        }
        None
    }
}

pub proof fn lemma_size_monotonic(gs: Seq<Group>, i: int, j: int)
    requires
        0 <= i <= j <= gs.len(),
    ensures
        24 <= groups_size(gs.take(i)) <= groups_size(gs.take(j)),
    decreases j,
{
    if i < j {
        lemma_size_monotonic(gs, i, j - 1);
        assert(gs.take(j).drop_last() =~= gs.take(j - 1));
    } else if j > 0 {
        lemma_size_monotonic(gs, j - 1, j - 1);
        assert(gs.take(j).drop_last() =~= gs.take(j - 1));
    }
}

// --- round trip ---------------------------------------------------------------

proof fn lemma_segs_bytes(segs: Seq<AgSegment>, j: int)
    requires
        0 <= j <= segs.len(),
    ensures
        segs_bytes(segs).len() == 16 * segs.len(),
        j < segs.len() ==> segs_bytes(segs).subrange(16 * j, 16 * j + 16) == seg_bytes(segs[j]),
    decreases segs.len(),
{
    if segs.len() > 0 {
        let init = segs.drop_last();
        if j < segs.len() - 1 {
            lemma_segs_bytes(init, j);
            assert(segs_bytes(segs).subrange(16 * j, 16 * j + 16) =~= segs_bytes(init).subrange(
                16 * j,
                16 * j + 16,
            ));
        } else {
            lemma_segs_bytes(init, 0);
            if j == segs.len() - 1 {
                assert(segs_bytes(segs).subrange(16 * j, 16 * j + 16) =~= seg_bytes(segs[j]));
            }
        }
    }
}

proof fn lemma_groups_bytes(gs: Seq<Group>, i: int)
    requires
        0 <= i <= gs.len(),
    ensures
        groups_bytes(gs).len() == groups_size(gs) - 24,
        i < gs.len() ==> {
            let lo = groups_size(gs.take(i)) - 24;
            &&& 0 <= lo <= groups_size(gs) - 24 - (8 + 16 * gs[i].segs.len())
            &&& groups_bytes(gs).subrange(lo, lo + 8 + 16 * gs[i].segs.len()) == group_bytes(gs[i])
        },
    decreases gs.len(),
{
    if gs.len() > 0 {
        let init = gs.drop_last();
        lemma_segs_bytes(gs.last().segs, 0);
        lemma_size_monotonic(gs, i, gs.len() as int);
        assert(gs.take(gs.len() as int) =~= gs);
        if i < gs.len() - 1 {
            lemma_groups_bytes(init, i);
            assert(init.take(i) =~= gs.take(i));
            let lo = groups_size(gs.take(i)) - 24;
            let hi = lo + 8 + 16 * gs[i].segs.len();
            assert(groups_bytes(gs).subrange(lo, hi) =~= groups_bytes(init).subrange(lo, hi));
        } else {
            lemma_groups_bytes(init, 0);
            if i == gs.len() - 1 {
                assert(gs.take(i) =~= init);
                let lo = groups_size(gs.take(i)) - 24;
                assert(groups_bytes(gs).subrange(lo, lo + 8 + 16 * gs[i].segs.len())
                    =~= group_bytes(gs[i]));
            }
        }
    }
}

/// The group whose encoding stands at `off`.
proof fn lemma_group_at(b: Seq<u8>, off: int, g: Group)
    requires
        0 <= off,
        g.segs.len() <= u16::MAX,
        off + 8 + 16 * g.segs.len() <= b.len(),
        b.subrange(off, off + 8 + 16 * g.segs.len()) == group_bytes(g),
    ensures
        fmt::u16_at(b, off) == g.flags,
        fmt::u16_at(b, off + 2) == g.segs.len(),
        fmt::u32_at(b, off + 4) == g.length,
        segs_at(b, off + 8, g.segs.len() as int) == g.segs,
{
    let e = group_bytes(g);
    lemma_segs_bytes(g.segs, 0);
    assert(b.subrange(off, off + 2) =~= fmt::be16(g.flags)) by {
        assert(b.subrange(off, off + 2) =~= e.subrange(0, 2));
        assert(e.subrange(0, 2) =~= fmt::be16(g.flags));
    }
    fmt::lemma_range_u16(b, off, g.flags);
    assert(b.subrange(off + 2, off + 4) =~= fmt::be16(g.segs.len() as u16)) by {
        assert(b.subrange(off + 2, off + 4) =~= e.subrange(2, 4));
        assert(e.subrange(2, 4) =~= fmt::be16(g.segs.len() as u16));
    }
    fmt::lemma_range_u16(b, off + 2, g.segs.len() as u16);
    assert(b.subrange(off + 4, off + 8) =~= fmt::be32(g.length)) by {
        assert(b.subrange(off + 4, off + 8) =~= e.subrange(4, 8));
        assert(e.subrange(4, 8) =~= fmt::be32(g.length));
    }
    fmt::lemma_range_u32(b, off + 4, g.length);
    assert forall|j: int| 0 <= j < g.segs.len() implies #[trigger] seg_at(b, off + 8 + 16 * j)
        == g.segs[j] by {
        let o = off + 8 + 16 * j;
        let sb = seg_bytes(g.segs[j]);
        lemma_segs_bytes(g.segs, j);
        assert(b.subrange(o, o + 16) =~= sb) by {
            assert(b.subrange(o, o + 16) =~= e.subrange(8 + 16 * j, 8 + 16 * j + 16));
            assert(e.subrange(8 + 16 * j, 8 + 16 * j + 16) =~= segs_bytes(g.segs).subrange(
                16 * j,
                16 * j + 16,
            ));
        }
        assert(b.subrange(o, o + 4) =~= fmt::be32(g.segs[j].ag_block)) by {
            assert(b.subrange(o, o + 4) =~= b.subrange(o, o + 16).subrange(0, 4));
            assert(sb.subrange(0, 4) =~= fmt::be32(g.segs[j].ag_block));
        }
        fmt::lemma_range_u32(b, o, g.segs[j].ag_block);
        assert(b.subrange(o + 4, o + 8) =~= fmt::be32(g.segs[j].blocks)) by {
            assert(b.subrange(o + 4, o + 8) =~= b.subrange(o, o + 16).subrange(4, 8));
            assert(sb.subrange(4, 8) =~= fmt::be32(g.segs[j].blocks));
        }
        fmt::lemma_range_u32(b, o + 4, g.segs[j].blocks);
        assert(b.subrange(o + 8, o + 16) =~= fmt::be64(g.segs[j].dev_offset)) by {
            assert(b.subrange(o + 8, o + 16) =~= b.subrange(o, o + 16).subrange(8, 16));
            assert(sb.subrange(8, 16) =~= fmt::be64(g.segs[j].dev_offset));
        }
        fmt::lemma_range_u64(b, o + 8, g.segs[j].dev_offset);
    }
    assert(segs_at(b, off + 8, g.segs.len() as int) =~= g.segs);
}

proof fn lemma_groups_at(b: Seq<u8>, gs: Seq<Group>, used: int, i: int)
    requires
        0 <= i <= gs.len(),
        used == groups_size(gs) <= b.len(),
        forall|k: int| 0 <= k < gs.len() ==> (#[trigger] gs[k]).segs.len() <= u16::MAX,
        b.subrange(24, used) == groups_bytes(gs),
    ensures
        groups_at(b, groups_size(gs.take(i)), used, gs.len() - i) == Ok::<Seq<Group>, FmtError>(
            gs.skip(i),
        ),
    decreases gs.len() - i,
{
    if i < gs.len() {
        let off = groups_size(gs.take(i));
        let g = gs[i];
        lemma_groups_bytes(gs, i);
        lemma_size_monotonic(gs, i, i);
        let hi = off + 8 + 16 * g.segs.len();
        assert(b.subrange(off, hi) =~= b.subrange(24, used).subrange(off - 24, hi - 24));
        lemma_group_at(b, off, g);
        assert(gs.take(i + 1).drop_last() =~= gs.take(i));
        assert(gs.take(i + 1).last() == g);
        lemma_groups_at(b, gs, used, i + 1);
        assert(gs.skip(i) =~= seq![g] + gs.skip(i + 1));
    } else {
        assert(gs.skip(i) =~= Seq::empty());
    }
}

/// What `to_bytes` writes, `parse` reads back: every map that fits its area
/// and its counts.
pub proof fn law_agmap_round_trip(m: Groups, capacity: int)
    requires
        groups_size(m.entries) <= capacity,
        groups_size(m.entries) <= u32::MAX,
        forall|k: int| 0 <= k < m.entries.len() ==> (#[trigger] m.entries[k]).segs.len()
            <= u16::MAX,
    ensures
        map_parse(map_image(m, capacity)) == Ok::<Groups, FmtError>(m),
{
    reveal(map_image);
    let gs = m.entries;
    let body = map_body(m);
    let used = groups_size(gs);
    let n = gs.len() as int;
    lemma_groups_bytes(gs, 0);
    lemma_size_monotonic(gs, 0, n);
    lemma_count(gs);
    assert(gs.take(n) =~= gs);
    assert(gs.take(0) =~= Seq::<Group>::empty());
    assert(body.len() == used);
    fmt::lemma_sealed(body);
    let b = map_image(m, capacity);
    let sl = fmt::sealed(body);
    assert(b.take(used) =~= sl);
    assert(b.subrange(24, used) =~= groups_bytes(gs)) by {
        assert(b.subrange(24, used) =~= body.subrange(24, used));
        assert(body.subrange(24, used) =~= groups_bytes(gs));
    }
    assert(b.subrange(8, 16) =~= fmt::be64(m.gen)) by {
        assert(b.subrange(8, 16) =~= body.subrange(8, 16));
        assert(body.subrange(8, 16) =~= fmt::be64(m.gen));
    }
    fmt::lemma_range_u64(b, 8, m.gen);
    assert(b.subrange(16, 20) =~= fmt::be32(n as u32)) by {
        assert(b.subrange(16, 20) =~= body.subrange(16, 20));
        assert(body.subrange(16, 20) =~= fmt::be32(n as u32));
    }
    fmt::lemma_range_u32(b, 16, n as u32);
    assert(b.subrange(20, 24) =~= fmt::be32(used as u32)) by {
        assert(b.subrange(20, 24) =~= body.subrange(20, 24));
        assert(body.subrange(20, 24) =~= fmt::be32(used as u32));
    }
    fmt::lemma_range_u32(b, 20, used as u32);
    assert(fmt::has_magic(b, AGMAP_MAGIC)) by {
        assert(b[0] == body[0] && b[1] == body[1] && b[2] == body[2] && b[3] == body[3]);
    }
    assert(fmt::u32_at(b, 4) == fmt::u32_at(sl, 4));
    lemma_groups_at(b, gs, used, 0);
    assert(gs.skip(0) =~= gs);
}

/// A group takes at least eight bytes.
/// An encoded map fills its capacity.
pub proof fn lemma_image_len(m: Groups, capacity: int)
    requires
        groups_size(m.entries) <= capacity,
    ensures
        map_image(m, capacity).len() == capacity,
{
    reveal(map_image);
    let gs = m.entries;
    let n = gs.len() as int;
    assert(gs.take(n) =~= gs);
    lemma_groups_bytes(gs, n);
    fmt::lemma_sealed(map_body(m));
}

proof fn lemma_count(gs: Seq<Group>)
    ensures
        8 * gs.len() + 24 <= groups_size(gs),
    decreases gs.len(),
{
    if gs.len() > 0 {
        lemma_count(gs.drop_last());
    }
}

} // verus!
