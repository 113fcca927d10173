//! Allocator records: the states and references of sixteen child cells, and
//! the bitmap of the records in use of a table block.

use crate::fmt::{cell_get, cell_set, get_u16, get_u32, put_u16, put_u32, ALLOC_FANOUT, CELL_FREE};
use vstd::prelude::*;

use crate::fmt;

verus! {

pub const REC_SIZE: usize = 128;

/// The references that a record holds: block within the group, and record
/// index in that block.
pub open spec fn ref_of(rec: Seq<u8>, i: int) -> (u32, u16) {
    (fmt::u32_at(rec, 4 + 6 * i), fmt::u16_at(rec, 8 + 6 * i))
}

/// The record with reference `i` replaced.
pub open spec fn with_ref(rec: Seq<u8>, i: int, r: (u32, u16)) -> Seq<u8> {
    fmt::splice(fmt::splice(rec, 4 + 6 * i, fmt::be32(r.0)), 8 + 6 * i, fmt::be16(r.1))
}

/// States `lo` to `hi` of the record set to `st`.
pub open spec fn with_states(rec: Seq<u8>, lo: int, hi: int, st: u8) -> Seq<u8>
    decreases hi - lo,
{
    if lo >= hi {
        rec
    } else {
        fmt::cell_put(with_states(rec, lo, hi - 1, st), hi - 1, st)
    }
}

/// Children `s` to `s + m` are all free.
pub open spec fn is_run(rec: Seq<u8>, s: int, m: int) -> bool {
    &&& 0 <= s
    &&& s + m <= ALLOC_FANOUT
    &&& forall|i: int| s <= i < s + m ==> #[trigger] fmt::cell_at(rec, i) == CELL_FREE
}

/// The first place where `m` children in a row are free; there is none for
/// `m` zero.
pub open spec fn first_run(rec: Seq<u8>, m: int) -> Option<int> {
    if m > 0 && exists|s: int| is_run(rec, s, m) {
        Some(choose|s: int| is_run(rec, s, m) && forall|r: int| 0 <= r < s ==> !is_run(rec, r, m))
    } else {
        None
    }
}

/// The first child in state `st`.
pub open spec fn first_in(rec: Seq<u8>, st: u8, i: int) -> Option<int>
    decreases ALLOC_FANOUT - i,
{
    if i >= ALLOC_FANOUT {
        None
    } else if fmt::cell_at(rec, i) == st {
        Some(i)
    } else {
        first_in(rec, st, i + 1)
    }
}

/// Every child is in state `st`.
pub open spec fn all_in(rec: Seq<u8>, st: u8) -> bool {
    forall|i: int| 0 <= i < ALLOC_FANOUT ==> #[trigger] fmt::cell_at(rec, i) == st
}

/// Records per table block.
pub fn recs_per_block(bs: u32) -> (r: u16)
    requires
        128 <= bs <= 0x80_0000,
    ensures
        r == bs / 128 - 1,
{
    (bs as usize / REC_SIZE - 1) as u16
}

pub fn rec_state(rec: &[u8], i: u32) -> (r: u8)
    requires
        rec@.len() >= 4,
        i < 16,
    ensures
        r == fmt::cell_at(rec@, i as int),
        r < 4,
{
    cell_get(rec, i as u64)
}

pub fn rec_state_set(rec: &mut [u8], i: u32, st: u8)
    requires
        old(rec)@.len() >= 4,
        i < 16,
    ensures
        final(rec)@ == fmt::cell_put(old(rec)@, i as int, st % 4),
        final(rec)@.len() == old(rec)@.len(),
{
    cell_set(rec, i as u64, st);
}

pub fn rec_ref(rec: &[u8], i: u32) -> (r: (u32, u16))
    requires
        rec@.len() >= 100,
        i < 16,
    ensures
        r == ref_of(rec@, i as int),
{
    let off = 4 + i as usize * 6;
    (get_u32(rec, off), get_u16(rec, off + 4))
}

pub fn rec_ref_set(rec: &mut [u8], i: u32, r: (u32, u16))
    requires
        old(rec)@.len() >= 100,
        i < 16,
    ensures
        final(rec)@ == with_ref(old(rec)@, i as int, r),
        final(rec)@.len() == old(rec)@.len(),
{
    let off = 4 + i as usize * 6;
    put_u32(rec, off, r.0);
    put_u16(rec, off + 4, r.1);
}

pub fn rec_all(rec: &[u8], st: u8) -> (r: bool)
    requires
        rec@.len() >= 4,
    ensures
        r == all_in(rec@, st),
{
    let mut i: u32 = 0;
    while i < ALLOC_FANOUT
        invariant
            i <= 16,
            rec@.len() >= 4,
            forall|j: int| 0 <= j < i ==> #[trigger] fmt::cell_at(rec@, j) == st,
        decreases 16 - i,
    {
        if rec_state(rec, i) != st {
            return false;
        }
        i = i + 1;
    }
    true
}

/// Set the states `lo` to `hi` of a record.
pub fn rec_fill(rec: &mut [u8], lo: u32, hi: u32, st: u8)
    requires
        old(rec)@.len() >= 4,
        lo <= hi <= 16,
        st < 4,
    ensures
        final(rec)@ == with_states(old(rec)@, lo as int, hi as int, st),
        final(rec)@.len() == old(rec)@.len(),
{
    let mut i = lo;
    while i < hi
        invariant
            lo <= i <= hi <= 16,
            st < 4,
            rec@.len() == old(rec)@.len() >= 4,
            rec@ == with_states(old(rec)@, lo as int, i as int, st),
        decreases hi - i,
    {
        rec_state_set(rec, i, st);
        i = i + 1;
    }
}

/// Find a run of `m` consecutive free children in a record.
pub fn find_run(rec: &[u8], m: u32) -> (r: Option<u32>)
    requires
        rec@.len() >= 4,
    ensures
        match r {
            Some(s) => first_run(rec@, m as int) == Some(s as int) && is_run(
                rec@,
                s as int,
                m as int,
            ),
            None => first_run(rec@, m as int) is None,
        },
{
    if m == 0 {
        return None;
    }
    let mut run: u32 = 0;
    let mut i: u32 = 0;
    while i < ALLOC_FANOUT
        invariant
            run <= i <= 16,
            run < m,
            rec@.len() >= 4,
            forall|j: int| i - run <= j < i ==> #[trigger] fmt::cell_at(rec@, j) == CELL_FREE,
            run < i ==> fmt::cell_at(rec@, i - run - 1) != CELL_FREE,
            forall|s: int| 0 <= s && s + m <= i ==> !is_run(rec@, s, m as int),
        decreases 16 - i,
    {
        let st = rec_state(rec, i);
        if st == CELL_FREE {
            run = run + 1;
            if run == m {
                let s = i + 1 - m;
                proof {
                    assert(is_run(rec@, s as int, m as int));
                    assert forall|q: int| 0 <= q < s implies !is_run(rec@, q, m as int) by {
                        if q + m == i + 1 {
                            assert(q == s);
                        }
                    }
                    let c = choose|x: int|
                        is_run(rec@, x, m as int) && forall|q: int|
                            0 <= q < x ==> !is_run(rec@, q, m as int);
                    assert(c == s) by {
                        if c < s {
                            assert(!is_run(rec@, c, m as int));
                        }
                    }
                }
                return Some(s);
            }
            proof {
                assert forall|s: int| 0 <= s && s + m <= i + 1 implies !is_run(
                    rec@,
                    s,
                    m as int,
                ) by {
                    if s + m == i + 1 && is_run(rec@, s, m as int) {
                        assert(s <= i - run);
                        assert(fmt::cell_at(rec@, i - run) == CELL_FREE);
                    }
                }
            }
        } else {
            run = 0;
            proof {
                assert forall|s: int| 0 <= s && s + m <= i + 1 implies !is_run(
                    rec@,
                    s,
                    m as int,
                ) by {
                    if s + m == i + 1 && is_run(rec@, s, m as int) {
                        assert(fmt::cell_at(rec@, i as int) == CELL_FREE);
                    }
                }
            }
        }
        i = i + 1;
    }
    None
}

/// Find the first child in state `st`.
pub fn find_state(rec: &[u8], st: u8) -> (r: Option<u32>)
    requires
        rec@.len() >= 4,
    ensures
        match r {
            Some(i) => first_in(rec@, st, 0) == Some(i as int) && i < 16,
            None => first_in(rec@, st, 0) is None,
        },
{
    let mut i: u32 = 0;
    while i < ALLOC_FANOUT
        invariant
            i <= 16,
            rec@.len() >= 4,
            first_in(rec@, st, 0) == first_in(rec@, st, i as int),
        decreases 16 - i,
    {
        if rec_state(rec, i) == st {
            return Some(i);
        }
        i = i + 1;
    }
    None
}

// --- record bitmap ------------------------------------------------------------

/// How many bits of `u` are set.
pub open spec fn ones(u: int) -> int
    decreases u,
{
    if u <= 0 {
        0
    } else {
        u % 2 + ones(u / 2)
    }
}

/// Two to the power `i`.
pub open spec fn two_to(i: int) -> int
    decreases i,
{
    if i <= 0 {
        1
    } else {
        2 * two_to(i - 1)
    }
}

/// Whether bit `i` of `u` is set.
pub open spec fn bit_on(u: int, i: int) -> bool
    decreases i,
{
    if i <= 0 {
        u % 2 == 1
    } else {
        bit_on(u / 2, i - 1)
    }
}

/// The first bit from `i` to `n` that is clear; `u` holds the bits from `i` on.
pub open spec fn first_clear(u: int, i: int, n: int) -> Option<int>
    decreases n - i,
{
    if i >= n {
        None
    } else if u % 2 == 0 {
        Some(i)
    } else {
        first_clear(u / 2, i + 1, n)
    }
}

/// `u` with bit `i` set.
pub open spec fn bit_set(u: int, i: int) -> int {
    if bit_on(u, i) {
        u
    } else {
        u + two_to(i)
    }
}

/// `u` with bit `i` clear.
pub open spec fn bit_clear(u: int, i: int) -> int {
    if bit_on(u, i) {
        u - two_to(i)
    } else {
        u
    }
}

pub fn count_bits(u: u32) -> (r: u32)
    ensures
        r == ones(u as int),
        r <= 32,
{
    let mut m = u;
    let mut n: u32 = 0;
    let mut k: u32 = 0;
    assert(u as int <= two_to(32) - 1) by {
        reveal_with_fuel(two_to, 33);
    }
    while m > 0
        invariant
            n + ones(m as int) == ones(u as int),
            n <= k <= 32,
            m < two_to(32 - k),
        decreases m,
    {
        assert(k < 32) by {
            if k == 32 {
                assert(two_to(0) == 1);
            }
        }
        assert(two_to(32 - k) == 2 * two_to(32 - k - 1));
        n = n + m % 2;
        m = m / 2;
        k = k + 1;
    }
    n
}

/// Fewer than `n - i` bits set leave a clear one below `n`.
pub proof fn lemma_some_clear(u: int, i: int, n: int)
    requires
        0 <= u,
        ones(u) < n - i,
    ensures
        first_clear(u, i, n) is Some,
    decreases n - i,
{
    if i < n {
        if u % 2 == 1 {
            lemma_some_clear(u / 2, i + 1, n);
        }
    } else {
        lemma_ones_nonneg(u);
    }
}

proof fn lemma_ones_nonneg(u: int)
    ensures
        ones(u) >= 0,
    decreases u,
{
    if u > 0 {
        lemma_ones_nonneg(u / 2);
    }
}

/// The first clear bit of a value with fewer than `n` bits set.
pub fn find_clear(u: u32, n: u32) -> (r: u32)
    requires
        ones(u as int) < n <= 32,
    ensures
        first_clear(u as int, 0, n as int) == Some(r as int),
        r < n,
{
    proof {
        lemma_some_clear(u as int, 0, n as int);
    }
    let mut m = u;
    let mut i: u32 = 0;
    while m % 2 == 1
        invariant
            i <= n <= 32,
            first_clear(u as int, 0, n as int) == first_clear(m as int, i as int, n as int),
            first_clear(u as int, 0, n as int) is Some,
        decreases n - i,
    {
        m = m / 2;
        i = i + 1;
    }
    i
}

/// The first clear bit is clear, and below the bound.
pub proof fn lemma_first_clear(u: int, i: int, n: int)
    requires
        0 <= u,
        0 <= i,
        first_clear(u, i, n) is Some,
    ensures
        i <= first_clear(u, i, n)->Some_0 < n,
        !bit_on(u, first_clear(u, i, n)->Some_0 - i),
    decreases n - i,
{
    if i < n && u % 2 == 1 {
        lemma_first_clear(u / 2, i + 1, n);
    }
}

/// Reading the bits of a value of which one was added or taken.
pub proof fn lemma_bit_put(u: int, i: int, j: int)
    requires
        0 <= u,
        0 <= i,
        0 <= j,
    ensures
        bit_on(bit_set(u, i), j) == (i == j || bit_on(u, j)),
        bit_on(bit_clear(u, i), j) == (i != j && bit_on(u, j)),
        bit_on(u, i) ==> u >= two_to(i),
    decreases i,
{
    if i == 0 {
        assert(two_to(0) == 1);
        if j > 0 {
            if bit_on(u, 0) {
                assert((u - 1) / 2 == u / 2);
            } else {
                assert((u + 1) / 2 == u / 2);
            }
        }
    } else {
        assert(two_to(i) == 2 * two_to(i - 1));
        let w = two_to(i - 1);
        if j == 0 {
            assert((u + 2 * w) % 2 == u % 2);
            assert((u - 2 * w) % 2 == u % 2);
            lemma_bit_put(u / 2, i - 1, 0);
        } else {
            lemma_bit_put(u / 2, i - 1, j - 1);
            assert((u + 2 * w) / 2 == u / 2 + w);
            assert((u - 2 * w) / 2 == u / 2 - w);
        }
    }
}

/// A set bit below 32 keeps the value in 32 bits.
pub proof fn lemma_bit_bound(u: int, i: int, n: int)
    requires
        0 <= u < two_to(n),
        0 <= i < n,
    ensures
        0 <= bit_set(u, i) < two_to(n),
        0 <= bit_clear(u, i) < two_to(n),
        0 < two_to(i),
    decreases i,
{
    assert(two_to(n) == 2 * two_to(n - 1));
    if i == 0 {
        assert(two_to(0) == 1);
        if u % 2 == 0 {
            assert(u + 1 < 2 * two_to(n - 1));
        }
    } else {
        assert(two_to(i) == 2 * two_to(i - 1));
        lemma_bit_bound(u / 2, i - 1, n - 1);
    }
}

pub fn power(i: u32) -> (r: u32)
    requires
        i < 32,
    ensures
        r == two_to(i as int),
{
    let mut p: u32 = 1;
    let mut k: u32 = 0;
    proof {
        lemma_power_bound(i as int);
    }
    while k < i
        invariant
            k <= i < 32,
            p == two_to(k as int),
        decreases i - k,
    {
        proof {
            lemma_power_bound(k + 1);
        }
        p = p * 2;
        k = k + 1;
    }
    p
}

proof fn lemma_power_bound(i: int)
    requires
        0 <= i < 32,
    ensures
        0 < two_to(i) <= 0x8000_0000,
{
    reveal_with_fuel(two_to, 33);
    lemma_power_monotonic(i, 31);
    assert(two_to(31) == 0x8000_0000);
}

proof fn lemma_power_monotonic(i: int, j: int)
    requires
        0 <= i <= j,
    ensures
        0 < two_to(i) <= two_to(j),
    decreases j,
{
    if i < j {
        lemma_power_monotonic(i, j - 1);
    } else if i > 0 {
        lemma_power_monotonic(i - 1, i - 1);
    }
}

fn test_bit(u: u32, i: u32) -> (r: bool)
    requires
        i < 32,
    ensures
        r == bit_on(u as int, i as int),
{
    let mut m = u;
    let mut k = i;
    while k > 0
        invariant
            bit_on(u as int, i as int) == bit_on(m as int, k as int),
        decreases k,
    {
        m = m / 2;
        k = k - 1;
    }
    m % 2 == 1
}

pub fn with_bit(u: u32, i: u32) -> (r: u32)
    requires
        i < 32,
    ensures
        r == bit_set(u as int, i as int),
{
    proof {
        assert(two_to(32) == 0x1_0000_0000) by {
            reveal_with_fuel(two_to, 33);
        }
        lemma_bit_bound(u as int, i as int, 32);
    }
    if test_bit(u, i) {
        u
    } else {
        u + power(i)
    }
}

pub fn without_bit(u: u32, i: u32) -> (r: u32)
    requires
        i < 32,
    ensures
        r == bit_clear(u as int, i as int),
{
    proof {
        assert(two_to(32) == 0x1_0000_0000) by {
            reveal_with_fuel(two_to, 33);
        }
        lemma_bit_bound(u as int, i as int, 32);
        lemma_bit_put(u as int, i as int, 0);
    }
    if test_bit(u, i) {
        u - power(i)
    } else {
        u
    }
}

} // verus!
