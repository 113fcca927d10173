//! Where the small parts stand in their blocks: cells, references, children of
//! tree nodes and directory entries, by their bytes.

use vstd::prelude::*;

use crate::bucket;
use crate::bucket::Hent;
use crate::dirent;
use crate::disk_laws;
use crate::fmt;
use crate::header;
use crate::record;
use crate::roottable;
use crate::treenode;
use crate::utf16;

verus! {

// --- cells and references -----------------------------------------------------

/// Two bits of a byte, the lowest pair being number 0.
pub open spec fn pair(x: u8, k: int) -> int {
    if k <= 0 {
        x as int % 4
    } else if k == 1 {
        x as int / 4 % 4
    } else if k == 2 {
        x as int / 16 % 4
    } else {
        x as int / 64
    }
}

/// Four cells share a byte, the first of them its lowest bits.
pub proof fn law_cell_layout(b: Seq<u8>, c: int)
    ensures
        fmt::cell_at(b, c) == pair(b[c / 4], c % 4),
{
}

/// A record holds 16 cells in 4 bytes, and behind them as many references of 6
/// bytes: a block of the group, and a record in it.
pub proof fn law_record_layout(rec: Seq<u8>, i: int)
    ensures
        record::ref_of(rec, i).0 == disk_laws::be(rec, 4 + 6 * i, 4),
        record::ref_of(rec, i).1 == disk_laws::be(rec, 4 + 6 * i + 4, 2),
{
    disk_laws::lemma_be(rec, 4 + 6 * i);
    disk_laws::lemma_be(rec, 4 + 6 * i + 4);
}

/// A group has one cell for 256 blocks or the rest of them. Its root table holds
/// the cells, four to a byte, and behind them a reference of 6 bytes for each, in
/// as few blocks as hold both.
pub proof fn law_root_table_layout(h: header::AgHeader, bs: u32, c: int)
    requires
        bs > 0,
        h.length > 0,
    ensures
        ({
            let cells = header::cell_count(h.length);
            let n = header::table_blocks(h.length, bs);
            let first = roottable::cell_ref_off(h, 0);
            &&& (cells - 1) * 256 < h.length <= cells * 256
            &&& first * 4 >= cells
            &&& (first - 1) * 4 < cells
            &&& roottable::cell_ref_off(h, c) == first + 6 * c
            &&& n * bs >= first + 6 * cells
            &&& (n - 1) * bs < first + 6 * cells
        }),
{
    let cells = header::cell_count(h.length);
    fmt::lemma_ceil_div(h.length as int, 256);
    fmt::lemma_ceil_div(cells, 4);
    fmt::lemma_ceil_div(header::state_bytes(cells) + 6 * cells, bs as int);
}

// --- trees --------------------------------------------------------------------

/// The root of a tree has the states of its children from byte 2 on and the
/// children, of 16 bytes each, from byte 8 on; a node has them from bytes 24 and
/// 40 on. A child is the blocks of its run and, 8 bytes behind, an address.
pub proof fn law_child_layout(b: Seq<u8>, i: int)
    ensures
        treenode::root_at(b, i).st == pair(b[2 + i / 4], i % 4),
        treenode::root_at(b, i).blocks == disk_laws::be(b, 8 + 16 * i, 4),
        treenode::root_at(b, i).addr == disk_laws::be(b, 8 + 16 * i + 8, 8),
        treenode::node_at(b, i).st == pair(b[24 + i / 4], i % 4),
        treenode::node_at(b, i).blocks == disk_laws::be(b, 40 + 16 * i, 4),
        treenode::node_at(b, i).addr == disk_laws::be(b, 40 + 16 * i + 8, 8),
{
    disk_laws::lemma_be(b, 8 + 16 * i);
    disk_laws::lemma_be(b, 8 + 16 * i + 8);
    disk_laws::lemma_be(b, 40 + 16 * i);
    disk_laws::lemma_be(b, 40 + 16 * i + 8);
}

// --- directory entries --------------------------------------------------------

/// The name that `n` code units of two bytes each spell, from byte `o` on.
pub open spec fn name_at(b: Seq<u8>, o: int, n: int) -> Seq<char> {
    utf16::decode_utf16(Seq::new(n as nat, |i: int| disk_laws::be(b, o + 2 * i, 2) as u16))
}

proof fn lemma_name(b: Seq<u8>, o: int, n: int)
    requires
        n >= 0,
    ensures
        utf16::decode_utf16(dirent::units_at(b, o, n)) == name_at(b, o, n),
{
    let want = Seq::new(n as nat, |i: int| disk_laws::be(b, o + 2 * i, 2) as u16);
    assert forall|i: int| 0 <= i < n implies dirent::units_at(b, o, n)[i] == #[trigger] want[i] by {
        disk_laws::lemma_be(b, o + 2 * i);
    }
    assert(dirent::units_at(b, o, n) =~= want);
}

/// Where entry `k` of an embedded directory starts: each takes 10 bytes and its
/// name.
pub open spec fn embedded_at(p: Seq<u8>, k: int) -> int
    decreases k,
{
    if k <= 0 {
        0
    } else {
        embedded_at(p, k - 1) + 10 + 2 * p[embedded_at(p, k - 1) + 9]
    }
}

/// Whether an entry starts at byte `o`: there is room for its head, the inode
/// number is not zero, and the name does not run over the end.
pub open spec fn starts_entry(p: Seq<u8>, o: int) -> bool {
    o + 10 <= p.len() && disk_laws::be(p, o, 8) != 0 && o + 10 + 2 * p[o + 9] <= p.len()
}

/// The entries of an embedded directory follow one another up to the first place
/// where none starts. Each has its inode number in 8 bytes, its kind, the length
/// of its name, and the name.
pub proof fn law_embedded_entries_layout(p: Seq<u8>, k: int)
    requires
        0 <= k <= dirent::dir_entries_of(p).len(),
    ensures
        k < dirent::dir_entries_of(p).len() ==> {
            let o = embedded_at(p, k);
            let e = dirent::dir_entries_of(p)[k];
            &&& starts_entry(p, o)
            &&& e.ino == disk_laws::be(p, o, 8)
            &&& e.ftype == p[o + 8]
            &&& e.name == name_at(p, o + 10, p[o + 9] as int)
        },
        k == dirent::dir_entries_of(p).len() ==> !starts_entry(p, embedded_at(p, k)),
{
    lemma_embedded(p, 0, k, 0);
}

proof fn lemma_embedded(p: Seq<u8>, o: int, k: int, j: int)
    requires
        0 <= j <= k,
        o == embedded_at(p, j),
        k - j <= dirent::entries_from(p, o).len(),
    ensures
        k - j < dirent::entries_from(p, o).len() ==> {
            let a = embedded_at(p, k);
            let e = dirent::entries_from(p, o)[k - j];
            &&& starts_entry(p, a)
            &&& e.ino == disk_laws::be(p, a, 8)
            &&& e.ftype == p[a + 8]
            &&& e.name == name_at(p, a + 10, p[a + 9] as int)
        },
        k - j == dirent::entries_from(p, o).len() ==> !starts_entry(p, embedded_at(p, k)),
    decreases k - j,
{
    disk_laws::lemma_be(p, o);
    if dirent::entry_ok(p, o) {
        lemma_name(p, o + 10, p[o + 9] as int);
        if j < k {
            let next = o + 10 + 2 * p[o + 9];
            assert(next == embedded_at(p, j + 1));
            lemma_embedded(p, next, k, j + 1);
            let rest = dirent::entries_from(p, next);
            assert(dirent::entries_from(p, o) == seq![dirent::entry_at(p, o)] + rest);
            if k - j < dirent::entries_from(p, o).len() {
                assert(dirent::entries_from(p, o)[k - j] == rest[k - j - 1]);
            }
        }
    }
}

/// Where entry `k` of a bucket starts: the first behind 24 bytes, and each takes
/// 20 bytes and its name, up to the next multiple of 8.
pub open spec fn hashed_at(b: Seq<u8>, k: int) -> int
    decreases k,
{
    if k <= 0 {
        24
    } else {
        hashed_at(b, k - 1) + (20 + 2 * disk_laws::be(b, hashed_at(b, k - 1) + 18, 2) + 7) / 8 * 8
    }
}

/// The entries of a bucket follow one another. Each has its inode number and its
/// hash in 8 bytes, its kind, the length of its name, and the name.
pub proof fn law_bucket_entries_layout(b: Seq<u8>, n: int, es: Seq<Hent>, k: int)
    requires
        bucket::hents_at(b, 24, n) == Some(es),
        0 <= k < n,
    ensures
        es.len() == n,
        ({
            let o = hashed_at(b, k);
            &&& es[k].ino == disk_laws::be(b, o, 8)
            &&& es[k].hash == disk_laws::be(b, o + 8, 8)
            &&& es[k].ftype == b[o + 16]
            &&& es[k].name == name_at(b, o + 20, disk_laws::be(b, o + 18, 2))
            &&& o + 20 + 2 * disk_laws::be(b, o + 18, 2) <= b.len()
        }),
{
    lemma_hashed(b, 24, n, k, 0);
}

proof fn lemma_hashed(b: Seq<u8>, o: int, n: int, k: int, j: int)
    requires
        0 <= j <= k,
        k - j < n,
        o == hashed_at(b, j),
        bucket::hents_at(b, o, n) is Some,
    ensures
        ({
            let es = bucket::hents_at(b, o, n)->0;
            let a = hashed_at(b, k);
            &&& es.len() == n
            &&& es[k - j].ino == disk_laws::be(b, a, 8)
            &&& es[k - j].hash == disk_laws::be(b, a + 8, 8)
            &&& es[k - j].ftype == b[a + 16]
            &&& es[k - j].name == name_at(b, a + 20, disk_laws::be(b, a + 18, 2))
            &&& a + 20 + 2 * disk_laws::be(b, a + 18, 2) <= b.len()
        }),
    decreases n,
{
    disk_laws::lemma_be(b, o);
    disk_laws::lemma_be(b, o + 8);
    disk_laws::lemma_be(b, o + 18);
    let u = fmt::u16_at(b, o + 18) as int;
    lemma_name(b, o + 20, u);
    let next = o + bucket::slot_size(u);
    let rest = bucket::hents_at(b, next, n - 1)->0;
    let es = bucket::hents_at(b, o, n)->0;
    lemma_hashed_len(b, next, n - 1);
    assert(es == seq![bucket::hent_at(b, o)->0] + rest);
    if j < k {
        assert(next == hashed_at(b, j + 1));
        lemma_hashed(b, next, n - 1, k, j + 1);
        assert(es[k - j] == rest[k - j - 1]);
    }
}

proof fn lemma_hashed_len(b: Seq<u8>, o: int, n: int)
    requires
        n >= 0,
        bucket::hents_at(b, o, n) is Some,
    ensures
        bucket::hents_at(b, o, n)->0.len() == n,
    decreases n,
{
    if n > 0 {
        lemma_hashed_len(b, o + bucket::slot_size(fmt::u16_at(b, o + 18) as int), n - 1);
    }
}

// --- hashes -------------------------------------------------------------------

/// The number that the `n` bytes at `o` write, the lowest byte first.
pub open spec fn le(b: Seq<u8>, o: int, n: int) -> int
    decreases n,
{
    if n <= 0 {
        0
    } else {
        b[o] + 256 * le(b, o + 1, n - 1)
    }
}

/// The hash of a name is keyed by the two halves of the volume's identity, each
/// read with its lowest byte first, and taken over the code units of the name
/// with the higher byte first.
pub proof fn law_hash_is_keyed_by_the_volume(uuid: Seq<u8>, name: Seq<char>, bytes: Seq<u8>)
    requires
        uuid.len() == 16,
        bytes.len() == 2 * utf16::encode_utf16(name).len(),
        forall|i: int|
            0 <= i < utf16::encode_utf16(name).len() ==> #[trigger] utf16::encode_utf16(name)[i]
                == bytes[2 * i] * 256 + bytes[2 * i + 1],
    ensures
        bucket::name_hash(uuid, name) == bucket::sip24_of(
            le(uuid, 0, 8) as u64,
            le(uuid, 8, 8) as u64,
            bytes,
        ),
{
    reveal_with_fuel(le, 9);
    let u = utf16::encode_utf16(name);
    let got = dirent::units_bytes(u);
    assert forall|j: int| 0 <= j < got.len() implies #[trigger] got[j] == bytes[j] by {
        let i = j / 2;
        assert(u[i] == bytes[2 * i] * 256 + bytes[2 * i + 1]);
        assert(j == 2 * i || j == 2 * i + 1);
    }
    assert(got =~= bytes);
}

/// The table slot of a hash is its top bits: hashes of one slot lie in one range
/// of the same size as all others.
pub proof fn law_slot_is_the_top_of_the_hash(hash: u64, depth: int, s: int, w: int)
    requires
        0 <= depth <= 64,
        w == vstd::arithmetic::power::pow(2, (64 - depth) as nat),
        s * w <= hash < s * w + w,
    ensures
        bucket::slot_of(hash, depth) == s,
{
    lemma_two_to((64 - depth) as nat);
    bucket::lemma_two_to_pos(64 - depth);
    vstd::arithmetic::div_mod::lemma_fundamental_div_mod_converse(
        hash as int,
        w,
        s,
        hash - s * w,
    );
}

proof fn lemma_two_to(n: nat)
    ensures
        record::two_to(n as int) == vstd::arithmetic::power::pow(2, n),
    decreases n,
{
    reveal(vstd::arithmetic::power::pow);
    if n > 0 {
        lemma_two_to((n - 1) as nat);
    }
}

} // verus!
