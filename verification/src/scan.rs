//! Looking over a volume without trusting its pointers.

use crate::fmt::{blk_addr, cell_get, get_u16, ino_addr, FmtError, AGF_PRESENT, INODE_MAGIC};
use crate::fs::Gofs;
use crate::inode::Inode;
use crate::vol::Vol;
use vstd::prelude::*;

use crate::agmap;
use crate::fmt;
use crate::inode;
use crate::vol;

verus! {

/// An inode signature that was found: the inode number it stands under, and
/// the inode or why it is not valid.
#[derive(Debug, Clone, Copy)]
pub struct Sighting {
    pub ino: u64,
    pub inode: Result<Inode, FmtError>,
}

/// The bytes of slot `k` of a block.
pub open spec fn slot_in(b: Seq<u8>, isz: int, k: int) -> Seq<u8> {
    b.subrange(
        k * isz,
        if k * isz + isz < b.len() {
            k * isz + isz
        } else {
            b.len() as int
        },
    )
}

/// The slot number of slot `k` of block `local`.
pub open spec fn slot_number(bs: u32, isz: int, local: int, k: int) -> int {
    local * (bs as int / isz) + k
}

/// The signatures in the first `n` slots of a block.
pub open spec fn seen_in_block(b: Seq<u8>, bs: u32, isz: int, ag: u32, local: int, n: int) -> Seq<
    Sighting,
>
    decreases n,
{
    if n <= 0 {
        Seq::empty()
    } else {
        let before = seen_in_block(b, bs, isz, ag, local, n - 1);
        let s = slot_in(b, isz, n - 1);
        let at = slot_number(bs, isz, local, n - 1);
        if s.len() >= 2 && fmt::u16_at(s, 0) == INODE_MAGIC && at <= u32::MAX {
            before.push(
                Sighting { ino: fmt::addr_of(ag, at as u32), inode: inode::inode_parse(s) },
            )
        } else {
            before
        }
    }
}

/// The signatures in the first `n` blocks of a group; blocks that cannot be
/// read are passed over.
pub open spec fn seen_in_group(v: Vol, isz: int, ag: u32, n: int) -> Seq<Sighting>
    decreases n,
{
    if n <= 0 {
        Seq::empty()
    } else {
        seen_in_group(v, isz, ag, n - 1) + match vol::rd0(v, fmt::addr_of(ag, (n - 1) as u32)) {
            Ok(b) => seen_in_block(b, v.bs, isz, ag, n - 1, fmt::ceil_div(v.bs as int, isz)),
            Err(_) => Seq::empty(),
        }
    }
}

/// The signatures in the first `n` groups, as far as they are present.
pub open spec fn seen(v: Vol, isz: int, n: int) -> Seq<Sighting>
    decreases n,
{
    if n <= 0 {
        Seq::empty()
    } else {
        seen(v, isz, n - 1) + if agmap::is_present(v.groups[n - 1].flags) {
            seen_in_group(v, isz, (n - 1) as u32, v.groups[n - 1].length as int)
        } else {
            Seq::empty()
        }
    }
}

/// Scan the slots of one block.
fn scan_block(out: &mut Vec<Sighting>, b: &Vec<u8>, bs: u32, isz: u16, ag: u32, local: u32)
    requires
        isz > 0,
        b@.len() == bs,
    ensures
        final(out)@ == old(out)@ + seen_in_block(
            b@,
            bs,
            isz as int,
            ag,
            local as int,
            fmt::ceil_div(bs as int, isz as int),
        ),
{
    let n = fmt::div_up(bs as u64, isz as u64);
    let per = bs as u64 / isz as u64;
    let size = isz as usize;
    let mut k: u64 = 0;
    assert(out@ + seen_in_block(b@, bs, isz as int, ag, local as int, 0) =~= out@);
    while k < n
        invariant
            k <= n,
            n == fmt::ceil_div(bs as int, isz as int),
            n <= bs,
            bs > 0 ==> (n - 1) * isz < bs,
            per == bs as int / isz as int,
            per <= bs,
            size == isz,
            isz > 0,
            b@.len() == bs,
            out@ == old(out)@ + seen_in_block(b@, bs, isz as int, ag, local as int, k as int),
        decreases n - k,
    {
        assert(b.len() == b@.len());
        assert(k * isz < bs) by (nonlinear_arith)
            requires
                0 <= k <= n - 1,
                (n - 1) * isz < bs,
                isz > 0,
        ;
        let lo = k as usize * size;
        let hi = if b.len() - lo < size { b.len() } else { lo + size };
        let slot: &[u8] = &b[lo..hi];
        assert(slot@ == slot_in(b@, isz as int, k as int));
        assert(local * per <= 0xffff_ffff * 0xffff_ffff) by (nonlinear_arith)
            requires
                0 <= local <= 0xffff_ffff,
                0 <= per <= 0xffff_ffff,
        ;
        let at = local as u64 * per;
        let ghost before = seen_in_block(b@, bs, isz as int, ag, local as int, k as int);
        if slot.len() >= 2 && get_u16(slot, 0) == INODE_MAGIC && at <= u32::MAX as u64 && k
            <= u32::MAX as u64 - at {
            let s = Sighting { ino: ino_addr(ag, (at + k) as u32), inode: Inode::parse(slot) };
            let ghost o = out@;
            out.push(s);
            assert(out@ =~= old(out)@ + before.push(s));
        }
        k = k + 1;
    }
}

impl Gofs {
    /// Scan all mapped blocks for inode signatures.
    pub fn scan(&self) -> (r: Vec<Sighting>)
        requires
            self.wf(),
            self.sb.inodesize > 0,
        ensures
            r@ == seen(self.vol(), self.sb.inodesize as int, self.map@.entries.len() as int),
    {
        let isz = self.sb.inodesize;
        let bs = self.sb.blocksize;
        let ghost v = self.vol();
        let mut out: Vec<Sighting> = Vec::new();
        assert(out@ =~= seen(v, isz as int, 0));
        let mut i: usize = 0;
        while i < self.map.entries.len()
            invariant
                i <= self.map.entries@.len(),
                v == self.vol(),
                v.groups.len() == self.map.entries@.len(),
                self.wf(),
                isz > 0,
                bs == self.sb.blocksize,
                out@ == seen(v, isz as int, i as int),
            decreases self.map.entries@.len() - i,
        {
            let flags = self.map.entries[i].flags;
            let length = self.map.entries[i].length;
            proof {
                assert(v.groups[i as int] == self.map.entries@[i as int]@);
                agmap::lemma_present_bit(flags);
            }
            if flags & AGF_PRESENT != 0 {
                let ag = i as u32;
                let ghost base = out@;
                let mut local: u32 = 0;
                assert(base + seen_in_group(v, isz as int, ag, 0) =~= base);
                while local < length
                    invariant
                        local <= length,
                        v == self.vol(),
                        self.wf(),
                        isz > 0,
                        bs == self.sb.blocksize,
                        out@ == base + seen_in_group(v, isz as int, ag, local as int),
                    decreases length - local,
                {
                    let ghost o = out@;
                    let ghost g = seen_in_group(v, isz as int, ag, local as int);
                    match self.read_block(blk_addr(ag, local)) {
                        Ok(b) => {
                            scan_block(&mut out, &b, bs, isz, ag, local);
                            let ghost more = seen_in_block(
                                b@,
                                bs,
                                isz as int,
                                ag,
                                local as int,
                                fmt::ceil_div(bs as int, isz as int),
                            );
                            assert((base + g) + more =~= base + (g + more));
                        },
                        Err(_) => {
                            assert(g + Seq::<Sighting>::empty() =~= g);
                        },
                    }
                    local = local + 1;
                }
            } else {
                assert(out@ + Seq::<Sighting>::empty() =~= out@);
            }
            i = i + 1;
        }
        out
    }
}

/// How many of the first `n` cells of a table are in state `st`.
pub open spec fn cells_in_state(t: Seq<u8>, n: int, st: int) -> int
    decreases n,
{
    if n <= 0 {
        0
    } else {
        cells_in_state(t, n - 1, st) + if fmt::cell_at(t, n - 1) == st {
            1int
        } else {
            0
        }
    }
}

/// Count the first `cells` cells of a table by state: free, reserved, full,
/// refined.
pub fn count_states(table: &[u8], cells: u64) -> (r: [u64; 4])
    requires
        (cells + 3) / 4 <= table@.len(),
    ensures
        forall|st: int| 0 <= st < 4 ==> #[trigger] r@[st] == cells_in_state(table@, cells as int, st),
{
    let mut n = [0u64; 4];
    let mut c: u64 = 0;
    while c < cells
        invariant
            c <= cells,
            (cells + 3) / 4 <= table@.len(),
            n@.len() == 4,
            forall|st: int|
                0 <= st < 4 ==> #[trigger] n@[st] == cells_in_state(table@, c as int, st) && n@[st]
                    <= c,
        decreases cells - c,
    {
        let st = cell_get(table, c) as usize;
        let ghost before = n@;
        n[st] = n[st] + 1;
        c = c + 1;
        assert forall|s: int| 0 <= s < 4 implies #[trigger] n@[s] == cells_in_state(
            table@,
            c as int,
            s,
        ) && n@[s] <= c by {
            assert(before[s] == cells_in_state(table@, c - 1, s));
        }
    }
    n
}

} // verus!
