//! What a report of the check means: each finding stands for one kind of
//! damage, and each damage is found.

use vstd::prelude::*;

use crate::agmap;
use crate::agmap::{AgSegment, Groups};
use crate::device;
use crate::dir;
use crate::dirent::Dirent;
use crate::error::FsError;
use crate::fs;
use crate::fsck;
use crate::fsck::{Rep, Tally, What};
use crate::header;
use crate::header::AgHeader;
use crate::import;
use crate::inode;
use crate::inode::{Extent, Inode};
use crate::mapping;
use crate::superblock;
use crate::superblock::Superblock;
use crate::vol::Vol;

verus! {

/// A finding: what was found, and the name of the entry concerned, if any.
pub type Found = (What, Seq<char>);

proof fn lemma_push(s: Seq<Found>, x: Found, f: Found)
    ensures
        s.push(x).contains(f) <==> s.contains(f) || f == x,
{
    let t = s.push(x);
    if s.contains(f) {
        let i = choose|i: int| 0 <= i < s.len() && s[i] == f;
        assert(t[i] == f);
    }
    if f == x {
        assert(t[s.len() as int] == f);
    }
    if t.contains(f) {
        let i = choose|i: int| 0 <= i < t.len() && t[i] == f;
        if i < s.len() {
            assert(s[i] == f);
        }
    }
}

proof fn lemma_errs(r: Rep, ws: Seq<What>, name: Seq<char>, f: Found)
    ensures
        fsck::with_errs(r, ws, name).errors.contains(f) <==> r.errors.contains(f) || (f.1 == name
            && ws.contains(f.0)),
        fsck::with_errs(r, ws, name).warnings == r.warnings,
        fsck::with_errs(r, ws, name).info == r.info,
    decreases ws.len(),
{
    if ws.len() > 0 {
        let t = ws.drop_last();
        lemma_errs(r, t, name, f);
        lemma_push(fsck::with_errs(r, t, name).errors, (ws.last(), name), f);
        if t.contains(f.0) {
            let i = choose|i: int| 0 <= i < t.len() && t[i] == f.0;
            assert(ws[i] == f.0);
        }
        if ws.contains(f.0) {
            let i = choose|i: int| 0 <= i < ws.len() && ws[i] == f.0;
            if i < t.len() {
                assert(t[i] == f.0);
            }
        }
        if f.0 == ws.last() {
            assert(ws[ws.len() - 1] == f.0);
        }
    }
}

// --- groups -------------------------------------------------------------------

/// All blocks that the segments of a group cover.
pub open spec fn blocks_of(segs: Seq<AgSegment>) -> int {
    segs.fold_left(0int, |n: int, s: AgSegment| n + s.blocks)
}

proof fn lemma_blocks_of(segs: Seq<AgSegment>)
    ensures
        fsck::mapped_blocks(segs) == blocks_of(segs),
    decreases segs.len(),
{
    if segs.len() > 0 {
        lemma_blocks_of(segs.drop_last());
    }
}

/// What the tables of a group say of its blocks.
pub open spec fn tally_of(v: Vol, h: AgHeader) -> Result<Tally, FsError> {
    match import::root_table_of(v, h) {
        Err(e) => Err(e),
        Ok(t) => fsck::cells_counted(
            v,
            h.ag_num,
            t,
            header::cell_count(h.length),
            Tally { free: 0, full: 0 },
            0,
        ),
    }
}

/// Whether group `i` is in use: present and not retired.
pub open spec fn in_use(v: Vol, i: int) -> bool {
    v.groups[i].flags % 2 == 1 && v.groups[i].flags / 4 % 2 == 0
}

/// Whether `f` says what is wrong with group `i`.
pub open spec fn group_damage(v: Vol, i: int, f: Found) -> bool {
    let g = v.groups[i];
    let id = i as u32;
    &&& in_use(v, i)
    &&& f.1.len() == 0
    &&& if blocks_of(g.segs) != g.length {
        f.0 == (What::MapCovers { ag: id, mapped: blocks_of(g.segs) as u128, length: g.length })
    } else {
        match fs::header_of(v, Map::empty(), id) {
            Err(error) => f.0 == (What::BadHeader { ag: id, error }),
            Ok(h) => {
                ||| h.ag_num != id && f.0 == (What::HeaderNum { ag: id, num: h.ag_num })
                ||| h.length != g.length && f.0 == (What::HeaderLength {
                    ag: id,
                    header: h.length,
                    map: g.length,
                })
                ||| match import::root_table_of(v, h) {
                    Err(error) => f.0 == (What::BadRootTable { ag: id, error }),
                    Ok(_) => match tally_of(v, h) {
                        Err(error) => f.0 == (What::BadRecord { ag: id, error }),
                        Ok(n) => {
                            ||| n.free != h.free_blocks && f.0 == (What::FreeCount {
                                ag: id,
                                table: n.free as u64,
                                header: h.free_blocks,
                            })
                            ||| n.full != h.full_blocks && f.0 == (What::FullCount {
                                ag: id,
                                table: n.full as u64,
                                header: h.full_blocks,
                            })
                        },
                    },
                }
            },
        }
    }
}

/// What group `i` adds to the free blocks of the volume: what its header
/// counts, where header and table can be read.
pub open spec fn free_in(v: Vol, i: int) -> int {
    let g = v.groups[i];
    if in_use(v, i) && blocks_of(g.segs) == g.length {
        match fs::header_of(v, Map::empty(), i as u32) {
            Err(_) => 0,
            Ok(h) => if import::root_table_of(v, h) is Ok {
                h.free_blocks as int
            } else {
                0
            },
        }
    } else {
        0
    }
}

/// The free blocks of the first `n` groups.
pub open spec fn free_sum(v: Vol, n: int) -> int
    decreases n,
{
    if n <= 0 {
        0
    } else {
        free_sum(v, n - 1) + free_in(v, n - 1)
    }
}

/// Whether `f` says that group `i` is neither present nor retired.
pub open spec fn group_absent(v: Vol, i: int, f: Found) -> bool {
    &&& v.groups[i].flags % 2 == 0
    &&& v.groups[i].flags / 4 % 2 == 0
    &&& f == (What::Absent(i as u32), Seq::<char>::empty())
}

#[verifier::rlimit(40)]
#[verifier::spinoff_prover]
proof fn lemma_group(v: Vol, r: Rep, i: int, f: Found)
    requires
        0 <= i < v.groups.len(),
    ensures
        ({
            let (y, n) = fsck::group_checked(v, r, i as u32, v.groups[i]);
            &&& y.errors.contains(f) <==> r.errors.contains(f) || group_damage(v, i, f)
            &&& y.warnings.contains(f) <==> r.warnings.contains(f) || group_absent(v, i, f)
            &&& y.info == r.info
            &&& n == free_in(v, i)
        }),
{
    let g = v.groups[i];
    let id = i as u32;
    let e = Seq::<char>::empty();
    lemma_blocks_of(g.segs);
    assert(f.1.len() == 0 <==> f.1 == e) by {
        assert(f.1.len() == 0 ==> f.1 =~= e);
    }
    if g.flags / 4 % 2 == 1 {
    } else if g.flags % 2 == 0 {
        lemma_push(r.warnings, (What::Absent(id), e), f);
    } else if blocks_of(g.segs) != g.length {
        lemma_push(
            r.errors,
            (
                What::MapCovers {
                    ag: id,
                    mapped: fsck::mapped_blocks(g.segs) as u128,
                    length: g.length,
                },
                e,
            ),
            f,
        );
    } else {
        match fs::header_of(v, Map::empty(), id) {
            Err(error) => {
                lemma_push(r.errors, (What::BadHeader { ag: id, error }, e), f);
            },
            Ok(h) => {
                lemma_push(r.errors, (What::HeaderNum { ag: id, num: h.ag_num }, e), f);
                let r1 = if h.ag_num != id {
                    fsck::with_err(r, What::HeaderNum { ag: id, num: h.ag_num }, e)
                } else {
                    r
                };
                let w2 = What::HeaderLength { ag: id, header: h.length, map: g.length };
                lemma_push(r1.errors, (w2, e), f);
                let r2 = if h.length != g.length {
                    fsck::with_err(r1, w2, e)
                } else {
                    r1
                };
                match import::root_table_of(v, h) {
                    Err(error) => {
                        lemma_push(r2.errors, (What::BadRootTable { ag: id, error }, e), f);
                    },
                    Ok(t) => match tally_of(v, h) {
                        Err(error) => {
                            lemma_push(r2.errors, (What::BadRecord { ag: id, error }, e), f);
                        },
                        Ok(n) => {
                            let w3 = What::FreeCount {
                                ag: id,
                                table: n.free as u64,
                                header: h.free_blocks,
                            };
                            lemma_push(r2.errors, (w3, e), f);
                            let r3 = if n.free != h.free_blocks {
                                fsck::with_err(r2, w3, e)
                            } else {
                                r2
                            };
                            let w4 = What::FullCount {
                                ag: id,
                                table: n.full as u64,
                                header: h.full_blocks,
                            };
                            lemma_push(r3.errors, (w4, e), f);
                        },
                    },
                }
            },
        }
    }
}

proof fn lemma_groups(v: Vol, r: Rep, i: int, f: Found)
    requires
        0 <= i <= v.groups.len(),
    ensures
        ({
            let (y, n) = fsck::groups_checked(v, r, free_sum(v, i), i);
            &&& y.errors.contains(f) <==> r.errors.contains(f) || exists|k: int|
                i <= k < v.groups.len() && #[trigger] group_damage(v, k, f)
            &&& y.warnings.contains(f) <==> r.warnings.contains(f) || exists|k: int|
                i <= k < v.groups.len() && #[trigger] group_absent(v, k, f)
            &&& y.info == r.info
            &&& n == free_sum(v, v.groups.len() as int)
        }),
    decreases v.groups.len() - i,
{
    if i < v.groups.len() {
        let (r1, n) = fsck::group_checked(v, r, i as u32, v.groups[i]);
        lemma_group(v, r, i, f);
        assert(free_sum(v, i + 1) == free_sum(v, i) + free_in(v, i));
        lemma_groups(v, r1, i + 1, f);
        if group_damage(v, i, f) {
        }
        if group_absent(v, i, f) {
        }
    }
}

// --- the root directory -------------------------------------------------------

/// Whether an end of an extent lies on no mapped block.
pub open spec fn hangs(v: Vol, e: Extent) -> bool {
    ||| agmap::resolve_in(v.groups, e.blk, v.bs) is None
    ||| e.blk + e.blocks - 1 > u64::MAX
    ||| agmap::resolve_in(v.groups, (e.blk + e.blocks - 1) as u64, v.bs) is None
}

/// All blocks of some extents.
pub open spec fn extent_blocks(es: Seq<Extent>) -> int {
    es.fold_left(0int, |n: int, e: Extent| n + e.blocks)
}

/// Whether `w` says what is wrong with the extents of a file.
pub open spec fn file_damage(v: Vol, i: Inode, w: What) -> bool {
    let es = inode::extents_of(i.payload@);
    &&& i.format == crate::fmt::FMT_EXTENT
    &&& {
        ||| exists|k: int|
            0 <= k < es.len() && hangs(v, #[trigger] es[k]) && w == (What::NotMapped {
                blk: es[k].blk,
            })
        ||| extent_blocks(es) * v.bs < i.size && w == (What::Covers {
            blocks: extent_blocks(es) as u64,
            needed: ((i.size + v.bs - 1) / v.bs as int) as u64,
        })
    }
}

/// Whether `f` says what is wrong with the entry `e`, under its name.
pub open spec fn entry_damage(v: Vol, isz: u16, e: Dirent, f: Found) -> bool {
    &&& f.1 == e.name
    &&& match fs::inode_of(v, isz, e.ino) {
        Err(error) => f.0 == What::BadEntry(error),
        Ok(i) => file_damage(v, i, f.0),
    }
}

proof fn lemma_covered(es: Seq<Extent>, n: int)
    requires
        0 <= n <= es.len(),
    ensures
        fsck::covered(es, n) == extent_blocks(es.take(n)),
    decreases n,
{
    if n > 0 {
        lemma_covered(es, n - 1);
        assert(es.take(n).drop_last() =~= es.take(n - 1));
    }
}

proof fn lemma_unmapped(v: Vol, es: Seq<Extent>, n: int, w: What)
    requires
        0 <= n <= es.len(),
    ensures
        fsck::unmapped(v.groups, v.bs, es, n).contains(w) <==> exists|k: int|
            0 <= k < n && hangs(v, #[trigger] es[k]) && w == (What::NotMapped { blk: es[k].blk }),
    decreases n,
{
    if n > 0 {
        let s = fsck::unmapped(v.groups, v.bs, es, n - 1);
        let t = fsck::unmapped(v.groups, v.bs, es, n);
        lemma_unmapped(v, es, n - 1, w);
        if hangs(v, es[n - 1]) {
            assert(t == s.push(What::NotMapped { blk: es[n - 1].blk }));
            if s.contains(w) {
                let i = choose|i: int| 0 <= i < s.len() && s[i] == w;
                assert(t[i] == w);
            }
            assert(t[s.len() as int] == What::NotMapped { blk: es[n - 1].blk });
            if t.contains(w) {
                let i = choose|i: int| 0 <= i < t.len() && t[i] == w;
                if i < s.len() {
                    assert(s[i] == w);
                } else {
                    assert(hangs(v, es[n - 1]) && w == What::NotMapped { blk: es[n - 1].blk });
                }
            }
        }
    } else {
        assert(!fsck::unmapped(v.groups, v.bs, es, n).contains(w));
    }
}

proof fn lemma_file(v: Vol, i: Inode, w: What)
    requires
        v.bs > 0,
    ensures
        fsck::extent_flaws(v.groups, v.bs, i).contains(w) <==> file_damage(v, i, w),
{
    let es = inode::extents_of(i.payload@);
    let n = es.len() as int;
    let bs = v.bs as int;
    let c = fsck::covered(es, n);
    lemma_covered(es, n);
    assert(es.take(n) =~= es);
    let needed = crate::fmt::ceil_div(i.size as int, bs);
    crate::fmt::lemma_ceil_div(i.size as int, bs);
    assert(c * bs < i.size <==> c < needed) by (nonlinear_arith)
        requires
            i.size > 0 ==> (needed - 1) * bs < i.size,
            i.size <= needed * bs,
            i.size == 0 ==> needed == 0,
            bs > 0,
    ;
    if i.format == crate::fmt::FMT_EXTENT {
        lemma_unmapped(v, es, n, w);
        if c < needed {
            let s = fsck::unmapped(v.groups, v.bs, es, n);
            let x = What::Covers { blocks: c as u64, needed: needed as u64 };
            let t = s.push(x);
            if s.contains(w) {
                let k = choose|k: int| 0 <= k < s.len() && s[k] == w;
                assert(t[k] == w);
            }
            assert(t[s.len() as int] == x);
            if t.contains(w) {
                let k = choose|k: int| 0 <= k < t.len() && t[k] == w;
                if k < s.len() {
                    assert(s[k] == w);
                }
            }
        }
    } else {
        assert(!Seq::<What>::empty().contains(w));
    }
}

proof fn lemma_entries(v: Vol, isz: u16, r: Rep, es: Seq<Dirent>, k: int, f: Found)
    requires
        v.bs > 0,
        0 <= k <= es.len(),
    ensures
        ({
            let y = fsck::entries_checked(v, isz, r, es, k);
            &&& y.errors.contains(f) <==> r.errors.contains(f) || exists|j: int|
                k <= j < es.len() && entry_damage(v, isz, #[trigger] es[j], f)
            &&& y.warnings == r.warnings
            &&& y.info == r.info
        }),
    decreases es.len() - k,
{
    if k < es.len() {
        let e = es[k];
        let r1 = match fs::inode_of(v, isz, e.ino) {
            Err(x) => fsck::with_err(r, What::BadEntry(x), e.name),
            Ok(i) => fsck::with_errs(r, fsck::extent_flaws(v.groups, v.bs, i), e.name),
        };
        match fs::inode_of(v, isz, e.ino) {
            Err(x) => {
                lemma_push(r.errors, (What::BadEntry(x), e.name), f);
            },
            Ok(i) => {
                lemma_errs(r, fsck::extent_flaws(v.groups, v.bs, i), e.name, f);
                lemma_file(v, i, f.0);
            },
        }
        assert(r1.errors.contains(f) <==> r.errors.contains(f) || entry_damage(v, isz, e, f));
        lemma_entries(v, isz, r1, es, k + 1, f);
        if entry_damage(v, isz, es[k], f) {
        }
    }
}

/// What the root directory lists. On blocks too small for a bucket only a
/// directory without buckets can be listed.
pub open spec fn root_list(v: Vol, root: Inode) -> Result<Seq<Dirent>, FsError> {
    if v.bs >= 2048 || root.format == crate::fmt::FMT_EMPTY || root.format
        == crate::fmt::FMT_EMBED {
        dir::listed(v, Map::empty(), true, mapping::mp_of(root))
    } else {
        Err(FsError::DirFormat(root.format))
    }
}

/// Whether the structure of the root directory has the flaw.
pub open spec fn has_flaw(v: Vol, uuid: Seq<u8>, root: Inode, flaw: dir::DirFlaw) -> bool {
    dir::dir_flaws(v, Map::empty(), uuid, mapping::mp_of(root)) matches Ok(fl) && fl.contains(flaw)
}

/// Whether `f` says what is wrong with the root directory or with a file in it.
pub open spec fn root_damage(v: Vol, sb: Superblock, f: Found) -> bool {
    match fs::inode_of(v, sb.inodesize, sb.root_ino) {
        Err(e) => f == (What::BadRootInode(e), Seq::<char>::empty()),
        Ok(root) => if root.mode / 0x1000 != 4 {
            f == (What::RootNotDir, Seq::<char>::empty())
        } else {
            match root_list(v, root) {
                Err(e) => f == (What::BadRootDir(e), Seq::<char>::empty()),
                Ok(es) => {
                    ||| v.bs >= 2048 && f.1.len() == 0 && exists|flaw: dir::DirFlaw|
                        #[trigger] has_flaw(v, sb.uuid@, root, flaw) && f.0 == What::RootFlaw(flaw)
                    ||| exists|j: int|
                        0 <= j < es.len() && entry_damage(v, sb.inodesize, #[trigger] es[j], f)
                },
            }
        },
    }
}

proof fn lemma_flaws(v: Vol, uuid: Seq<u8>, root: Inode, w: What)
    ensures
        fsck::root_flaws(v, uuid, root).contains(w) <==> v.bs >= 2048 && exists|
            flaw: dir::DirFlaw,
        | #[trigger]
            has_flaw(v, uuid, root, flaw) && w == What::RootFlaw(flaw),
{
    let s = fsck::root_flaws(v, uuid, root);
    if v.bs >= 2048 {
        if let Ok(fl) = dir::dir_flaws(v, Map::empty(), uuid, mapping::mp_of(root)) {
            if s.contains(w) {
                let k = choose|k: int| 0 <= k < s.len() && s[k] == w;
                assert(has_flaw(v, uuid, root, fl[k]));
                assert(w == What::RootFlaw(fl[k]));
            }
            if exists|flaw: dir::DirFlaw| #[trigger]
                has_flaw(v, uuid, root, flaw) && w == What::RootFlaw(flaw) {
                let flaw = choose|flaw: dir::DirFlaw| #[trigger]
                    has_flaw(v, uuid, root, flaw) && w == What::RootFlaw(flaw);
                let k = choose|k: int| 0 <= k < fl.len() && fl[k] == flaw;
                assert(s[k] == w);
            }
        }
    }
}

#[verifier::rlimit(40)]
#[verifier::spinoff_prover]
proof fn lemma_root(v: Vol, r: Rep, sb: Superblock, f: Found)
    requires
        v.bs > 0,
    ensures
        ({
            let y = fsck::root_checked(v, r, sb);
            &&& y.errors.contains(f) <==> r.errors.contains(f) || root_damage(v, sb, f)
            &&& y.warnings == r.warnings
            &&& y.info.contains(f) <==> r.info.contains(f) || root_counted(v, sb, f)
        }),
{
    let none = Seq::<char>::empty();
    assert(f.1.len() == 0 <==> f.1 == none) by {
        assert(f.1.len() == 0 ==> f.1 =~= none);
    }
    match fs::inode_of(v, sb.inodesize, sb.root_ino) {
        Err(e) => {
            lemma_push(r.errors, (What::BadRootInode(e), none), f);
        },
        Ok(root) => {
            lemma_push(r.errors, (What::RootNotDir, none), f);
            assert(root_list(v, root) == fsck::root_entries(v, root));
            if root.mode / 0x1000 == 4 {
                match root_list(v, root) {
                    Err(e) => {
                        lemma_push(r.errors, (What::BadRootDir(e), none), f);
                    },
                    Ok(es) => {
                        let r1 = fsck::with_info(r, What::RootEntries(es.len() as u64), none);
                        let ws = fsck::root_flaws(v, sb.uuid@, root);
                        let r2 = fsck::with_errs(r1, ws, none);
                        lemma_push(r.info, (What::RootEntries(es.len() as u64), none), f);
                        lemma_errs(r1, ws, none, f);
                        lemma_flaws(v, sb.uuid@, root, f.0);
                        lemma_entries(v, sb.inodesize, r2, es, 0, f);
                    },
                }
            }
        },
    }
}

// --- the backup superblock ----------------------------------------------------

/// What stands where the backup superblock belongs: 512 bytes at the start of
/// the last block of group 0's first segment.
pub open spec fn backup_bytes(bytes: Seq<u8>, s: AgSegment, bs: u32) -> Option<Seq<u8>> {
    let off = s.dev_offset + (s.blocks - 1) * bs;
    if s.blocks > 0 && off + 512 <= bytes.len() && off <= u64::MAX {
        Some(bytes.subrange(off, off + 512))
    } else {
        None
    }
}

/// Whether `f` says what is wrong with the backup superblock.
pub open spec fn backup_damage(bytes: Seq<u8>, sb: Superblock, m: Groups, f: Found) -> bool {
    &&& m.entries.len() > 0
    &&& m.entries[0].segs.len() > 0
    &&& f.1.len() == 0
    &&& match backup_bytes(bytes, m.entries[0].segs[0], sb.blocksize) {
        None => f.0 == What::BackupUnreadable,
        Some(b) => match superblock::sb_parse(b) {
            Err(e) => f.0 == What::BackupBad(e),
            Ok(bak) => bak.uuid@ != sb.uuid@ && f.0 == What::BackupUuid,
        },
    }
}

/// Whether `f` says that the backup superblock is of another generation.
pub open spec fn backup_old(bytes: Seq<u8>, sb: Superblock, m: Groups, f: Found) -> bool {
    &&& m.entries.len() > 0
    &&& m.entries[0].segs.len() > 0
    &&& backup_bytes(bytes, m.entries[0].segs[0], sb.blocksize) matches Some(b)
    &&& superblock::sb_parse(b) matches Ok(bak)
    &&& bak.uuid@ == sb.uuid@
    &&& bak.gen != sb.gen
    &&& f == (
        What::BackupGen { backup: bak.gen, primary: sb.gen },
        Seq::<char>::empty(),
    )
}

#[verifier::rlimit(40)]
#[verifier::spinoff_prover]
proof fn lemma_backup(r: Rep, bytes: Seq<u8>, sb: Superblock, m: Groups, f: Found)
    requires
        bytes.len() <= u64::MAX,
    ensures
        ({
            let y = fsck::backup_checked(r, bytes, sb, m.entries);
            &&& y.errors.contains(f) <==> r.errors.contains(f) || backup_damage(bytes, sb, m, f)
            &&& y.warnings.contains(f) <==> r.warnings.contains(f) || backup_old(bytes, sb, m, f)
            &&& y.info == r.info
        }),
{
    let e = Seq::<char>::empty();
    assert(f.1.len() == 0 <==> f.1 == e) by {
        assert(f.1.len() == 0 ==> f.1 =~= e);
    }
    lemma_push(r.errors, (What::BackupUnreadable, e), f);
    lemma_push(r.errors, (What::BackupUuid, e), f);
    if m.entries.len() > 0 && m.entries[0].segs.len() > 0 {
        let s = m.entries[0].segs[0];
        let off = s.dev_offset + (s.blocks - 1) * sb.blocksize;
        if s.blocks > 0 {
            assert((s.blocks - 1) * sb.blocksize >= 0) by (nonlinear_arith)
                requires
                    s.blocks > 0,
            ;
        }
        if let Some(b) = backup_bytes(bytes, s, sb.blocksize) {
            match superblock::sb_parse(b) {
                Err(x) => {
                    lemma_push(r.errors, (What::BackupBad(x), e), f);
                },
                Ok(bak) => {
                    lemma_push(
                        r.warnings,
                        (What::BackupGen { backup: bak.gen, primary: sb.gen }, e),
                        f,
                    );
                },
            }
        }
    }
}

// --- the whole report ---------------------------------------------------------

/// Whether `f` says what is wrong with the volume.
pub open spec fn damage(bytes: Seq<u8>, sb: Superblock, m: Groups, f: Found) -> bool {
    let v = Vol { bytes, groups: m.entries, bs: sb.blocksize };
    ||| backup_damage(bytes, sb, m, f)
    ||| exists|i: int| 0 <= i < m.entries.len() && #[trigger] group_damage(v, i, f)
    ||| root_damage(v, sb, f)
}

/// Whether `f` says that map copy `k` cannot be used.
pub open spec fn copy_bad(bytes: Seq<u8>, sb: Superblock, k: u8, f: Found) -> bool {
    fs::map_copy(bytes, sb, k as int) matches Err(error) && f == (
        What::MapCopyBad { copy: k, error },
        Seq::<char>::empty(),
    )
}

/// Whether `f` names the generation of map copy `k`.
pub open spec fn copy_good(bytes: Seq<u8>, sb: Superblock, k: u8, f: Found) -> bool {
    fs::map_copy(bytes, sb, k as int) matches Ok(m) && f == (
        What::MapCopy { copy: k, gen: m.gen },
        Seq::<char>::empty(),
    )
}

/// Whether `f` counts what the root directory lists.
pub open spec fn root_counted(v: Vol, sb: Superblock, f: Found) -> bool {
    &&& fs::inode_of(v, sb.inodesize, sb.root_ino) matches Ok(root)
    &&& root.mode / 0x1000 == 4
    &&& root_list(v, root) matches Ok(es)
    &&& f == (What::RootEntries(es.len() as u64), Seq::<char>::empty())
}

/// Whether `f` describes the volume.
pub open spec fn note(bytes: Seq<u8>, sb: Superblock, m: Groups, f: Found) -> bool {
    let v = Vol { bytes, groups: m.entries, bs: sb.blocksize };
    ||| f.0 == (What::Volume { blocksize: sb.blocksize, inodesize: sb.inodesize, gen: sb.gen })
        && f.1 == fsck::label_of(sb)
    ||| copy_good(bytes, sb, 0, f)
    ||| copy_good(bytes, sb, 1, f)
    ||| root_counted(v, sb, f)
}

/// Whether `f` warns of something in the volume.
pub open spec fn doubt(bytes: Seq<u8>, sb: Superblock, m: Groups, f: Found) -> bool {
    let v = Vol { bytes, groups: m.entries, bs: sb.blocksize };
    let n = m.entries.len() as int;
    ||| copy_bad(bytes, sb, 0, f)
    ||| copy_bad(bytes, sb, 1, f)
    ||| n != sb.next_ag && f == (
        What::EntryCount { entries: n as u64, next_ag: sb.next_ag },
        Seq::<char>::empty(),
    )
    ||| backup_old(bytes, sb, m, f)
    ||| exists|i: int| 0 <= i < n && #[trigger] group_absent(v, i, f)
    ||| free_sum(v, n) != sb.free_blocks && f == (
        What::FreeTotal { superblock: sb.free_blocks, sum: free_sum(v, n) as u128 },
        Seq::<char>::empty(),
    )
}

proof fn lemma_copy(r: Rep, bytes: Seq<u8>, sb: Superblock, k: u8, f: Found)
    ensures
        ({
            let y = fsck::copy_checked(r, k, fs::copy_status(fs::map_copy(bytes, sb, k as int)));
            &&& y.errors == r.errors
            &&& y.warnings.contains(f) <==> r.warnings.contains(f) || copy_bad(bytes, sb, k, f)
            &&& y.info.contains(f) <==> r.info.contains(f) || copy_good(bytes, sb, k, f)
        }),
{
    match fs::map_copy(bytes, sb, k as int) {
        Err(error) => {
            lemma_push(r.warnings, (What::MapCopyBad { copy: k, error }, Seq::<char>::empty()), f);
        },
        Ok(m) => {
            lemma_push(r.info, (What::MapCopy { copy: k, gen: m.gen }, Seq::<char>::empty()), f);
        },
    }
}

/// The errors of a report are the damage, all of it and nothing else; its
/// warnings are the doubts, and its notes the description of the volume, all of
/// them and nothing else.
#[verifier::rlimit(40)]
#[verifier::spinoff_prover]
pub proof fn law_report_is_the_damage(bytes: Seq<u8>, sb: Superblock, m: Groups, rep: Rep, f: Found)
    requires
        bytes.len() <= u64::MAX,
        sb.blocksize > 0,
        sb.incompat == 0,
        fs::loaded(bytes) == Ok::<(Superblock, Groups), FsError>((sb, m)),
        fsck::checked(bytes) == Ok::<Rep, FsError>(rep),
    ensures
        rep.errors.contains(f) <==> damage(bytes, sb, m, f),
        rep.warnings.contains(f) <==> doubt(bytes, sb, m, f),
        rep.info.contains(f) <==> note(bytes, sb, m, f),
{
    let v = Vol { bytes, groups: m.entries, bs: sb.blocksize };
    let e = Seq::<char>::empty();
    let n = m.entries.len() as int;
    let r0 = Rep {
        errors: Seq::empty(),
        warnings: Seq::empty(),
        info: seq![
            (
                What::Volume { blocksize: sb.blocksize, inodesize: sb.inodesize, gen: sb.gen },
                fsck::label_of(sb),
            ),
        ],
    };
    let r1 = fsck::copy_checked(r0, 0, fs::copy_status(fs::map_copy(bytes, sb, 0)));
    let r2 = fsck::copy_checked(r1, 1, fs::copy_status(fs::map_copy(bytes, sb, 1)));
    let r3 = fsck::count_checked(r2, n, sb.next_ag);
    let r4 = fsck::backup_checked(r3, bytes, sb, m.entries);
    let (r5, sum) = fsck::groups_checked(v, r4, 0, 0);
    let r6 = fsck::total_checked(r5, sum, sb);
    assert(rep == fsck::root_checked(v, r6, sb));
    lemma_push(
        Seq::empty(),
        (
            What::Volume { blocksize: sb.blocksize, inodesize: sb.inodesize, gen: sb.gen },
            fsck::label_of(sb),
        ),
        f,
    );
    assert(r0.info =~= Seq::<Found>::empty().push(r0.info[0]));
    lemma_copy(r0, bytes, sb, 0, f);
    lemma_copy(r1, bytes, sb, 1, f);
    lemma_push(
        r2.warnings,
        (What::EntryCount { entries: n as u64, next_ag: sb.next_ag }, e),
        f,
    );
    lemma_backup(r3, bytes, sb, m, f);
    assert(free_sum(v, 0) == 0);
    lemma_groups(v, r4, 0, f);
    lemma_push(
        r5.warnings,
        (What::FreeTotal { superblock: sb.free_blocks, sum: sum as u128 }, e),
        f,
    );
    lemma_root(v, r6, sb, f);
}

/// A volume that needs features that are not known is reported as such, and
/// not looked into.
pub proof fn law_unknown_features_are_reported(bytes: Seq<u8>, sb: Superblock)
    requires
        bytes.len() >= 512,
        superblock::sb_parse(bytes.take(512)) == Ok::<Superblock, crate::fmt::FmtError>(sb),
        sb.incompat != 0,
    ensures
        fsck::checked(bytes) matches Ok(rep) && rep.errors == seq![
            (What::Incompat(sb.incompat), Seq::<char>::empty()),
        ] && rep.warnings.len() == 0 && rep.info == seq![
            (
                What::Volume { blocksize: sb.blocksize, inodesize: sb.inodesize, gen: sb.gen },
                fsck::label_of(sb),
            ),
        ],
{
    assert(bytes.subrange(0, 512) =~= bytes.take(512));
}

/// A report is given wherever the superblock can be read, and, unless it asks
/// for unknown features, a copy of the AG map can.
pub proof fn law_report_is_given(bytes: Seq<u8>, sb: Superblock)
    requires
        bytes.len() >= 512,
        superblock::sb_parse(bytes.take(512)) == Ok::<Superblock, crate::fmt::FmtError>(sb),
    ensures
        fsck::checked(bytes) is Ok <==> sb.incompat != 0 || fs::map_copy(bytes, sb, 0) is Ok
            || fs::map_copy(bytes, sb, 1) is Ok,
        fsck::checked(bytes) is Err ==> fsck::checked(bytes) == Err::<Rep, FsError>(
            FsError::NoAgMap,
        ),
{
    assert(bytes.subrange(0, 512) =~= bytes.take(512));
}

/// An entry of the root directory whose inode cannot be read is reported under
/// its name, with the error that the read gives.
pub proof fn law_unreadable_entry_is_reported(
    bytes: Seq<u8>,
    sb: Superblock,
    m: Groups,
    rep: Rep,
    root: Inode,
    es: Seq<Dirent>,
    k: int,
    error: FsError,
)
    requires
        bytes.len() <= u64::MAX,
        sb.blocksize >= 2048,
        sb.incompat == 0,
        fs::loaded(bytes) == Ok::<(Superblock, Groups), FsError>((sb, m)),
        fsck::checked(bytes) == Ok::<Rep, FsError>(rep),
        ({
            let v = Vol { bytes, groups: m.entries, bs: sb.blocksize };
            &&& fs::inode_of(v, sb.inodesize, sb.root_ino) == Ok::<Inode, FsError>(root)
            &&& root.mode / 0x1000 == 4
            &&& dir::listed(v, Map::empty(), true, mapping::mp_of(root)) == Ok::<
                Seq<Dirent>,
                FsError,
            >(es)
            &&& 0 <= k < es.len()
            &&& fs::inode_of(v, sb.inodesize, es[k].ino) == Err::<Inode, FsError>(error)
        }),
    ensures
        rep.errors.contains((What::BadEntry(error), es[k].name)),
{
    let v = Vol { bytes, groups: m.entries, bs: sb.blocksize };
    let f = (What::BadEntry(error), es[k].name);
    law_report_is_the_damage(bytes, sb, m, rep, f);
    assert(entry_damage(v, sb.inodesize, es[k], f));
}

/// What a report without errors vouches for: the backup superblock is one of
/// this volume; every group in use is mapped in full, its header is its own, and
/// its counters are those of its tables; the root directory is one and can be
/// listed without a flaw; and every entry in it names an inode that can be read,
/// whose extents are mapped and reach to its size.
pub open spec fn vouched(bytes: Seq<u8>, sb: Superblock, m: Groups) -> bool {
    let v = Vol { bytes, groups: m.entries, bs: sb.blocksize };
    &&& m.entries.len() > 0 && m.entries[0].segs.len() > 0 ==> {
        &&& backup_bytes(bytes, m.entries[0].segs[0], sb.blocksize) matches Some(b)
        &&& superblock::sb_parse(b) matches Ok(bak)
        &&& bak.uuid@ == sb.uuid@
    }
    &&& forall|i: int| 0 <= i < m.entries.len() ==> #[trigger] group_vouched(v, i)
    &&& fs::inode_of(v, sb.inodesize, sb.root_ino) matches Ok(root)
    &&& root.mode / 0x1000 == 4
    &&& sb.blocksize >= 2048 ==> forall|flaw: dir::DirFlaw|
        !#[trigger] has_flaw(v, sb.uuid@, root, flaw)
    &&& root_list(v, root) matches Ok(es)
    &&& forall|k: int| 0 <= k < es.len() ==> file_vouched(v, sb.inodesize, #[trigger] es[k])
}

/// Whether a group is as its entry in the map and its tables say.
pub open spec fn group_vouched(v: Vol, i: int) -> bool {
    v.groups[i].flags % 2 == 1 && v.groups[i].flags / 4 % 2 == 0 ==> {
        &&& blocks_of(v.groups[i].segs) == v.groups[i].length
        &&& fs::header_of(v, Map::empty(), i as u32) matches Ok(h)
        &&& h.ag_num == i as u32
        &&& h.length == v.groups[i].length
        &&& tally_of(v, h) matches Ok(n)
        &&& n.free == h.free_blocks
        &&& n.full == h.full_blocks
    }
}

/// Whether an entry names an inode that can be read, and, where its contents
/// are described by extents, these are mapped and reach to its size.
pub open spec fn file_vouched(v: Vol, isz: u16, e: Dirent) -> bool {
    &&& fs::inode_of(v, isz, e.ino) matches Ok(i)
    &&& i.format == crate::fmt::FMT_EXTENT ==> {
        let xs = inode::extents_of(i.payload@);
        &&& forall|j: int| 0 <= j < xs.len() ==> !hangs(v, #[trigger] xs[j])
        &&& i.size <= extent_blocks(xs) * v.bs
    }
}

/// A report has no errors exactly where the volume is as vouched for.
pub proof fn law_clean_report_vouches(bytes: Seq<u8>, sb: Superblock, m: Groups, rep: Rep)
    requires
        bytes.len() <= u64::MAX,
        sb.blocksize > 0,
        sb.incompat == 0,
        fs::loaded(bytes) == Ok::<(Superblock, Groups), FsError>((sb, m)),
        fsck::checked(bytes) == Ok::<Rep, FsError>(rep),
    ensures
        rep.errors.len() == 0 <==> vouched(bytes, sb, m),
{
    if rep.errors.len() == 0 {
        lemma_vouched(bytes, sb, m, rep);
    } else if vouched(bytes, sb, m) {
        let f = rep.errors[0];
        assert(rep.errors.contains(f));
        law_report_is_the_damage(bytes, sb, m, rep, f);
        lemma_no_damage(bytes, sb, m, f);
    }
}

/// A volume as vouched for has no damage.
#[verifier::rlimit(40)]
#[verifier::spinoff_prover]
proof fn lemma_no_damage(bytes: Seq<u8>, sb: Superblock, m: Groups, f: Found)
    requires
        vouched(bytes, sb, m),
    ensures
        !damage(bytes, sb, m, f),
{
    let v = Vol { bytes, groups: m.entries, bs: sb.blocksize };
    assert forall|i: int| 0 <= i < m.entries.len() implies !#[trigger] group_damage(v, i, f) by {
        assert(group_vouched(v, i));
    }
    let root = fs::inode_of(v, sb.inodesize, sb.root_ino)->Ok_0;
    let es = root_list(v, root)->Ok_0;
    assert forall|k: int| 0 <= k < es.len() implies !entry_damage(
        v,
        sb.inodesize,
        #[trigger] es[k],
        f,
    ) by {
        assert(file_vouched(v, sb.inodesize, es[k]));
    }
}

/// Without errors there is no damage of any kind.
#[verifier::rlimit(40)]
#[verifier::spinoff_prover]
proof fn lemma_vouched(bytes: Seq<u8>, sb: Superblock, m: Groups, rep: Rep)
    requires
        bytes.len() <= u64::MAX,
        sb.blocksize > 0,
        sb.incompat == 0,
        fs::loaded(bytes) == Ok::<(Superblock, Groups), FsError>((sb, m)),
        fsck::checked(bytes) == Ok::<Rep, FsError>(rep),
        rep.errors.len() == 0,
    ensures
        vouched(bytes, sb, m),
{
    let v = Vol { bytes, groups: m.entries, bs: sb.blocksize };
    let none = Seq::<char>::empty();
    assert forall|f: Found| !#[trigger] damage(bytes, sb, m, f) by {
        law_report_is_the_damage(bytes, sb, m, rep, f);
    }
    if m.entries.len() > 0 && m.entries[0].segs.len() > 0 {
        match backup_bytes(bytes, m.entries[0].segs[0], sb.blocksize) {
            None => {
                assert(damage(bytes, sb, m, (What::BackupUnreadable, none)));
            },
            Some(b) => match superblock::sb_parse(b) {
                Err(e) => {
                    assert(damage(bytes, sb, m, (What::BackupBad(e), none)));
                },
                Ok(bak) => {
                    if bak.uuid@ != sb.uuid@ {
                        assert(damage(bytes, sb, m, (What::BackupUuid, none)));
                    }
                },
            },
        }
    }
    assert forall|i: int| 0 <= i < m.entries.len() implies #[trigger] group_vouched(v, i) by {
        lemma_group_vouched(bytes, sb, m, i);
    }
    match fs::inode_of(v, sb.inodesize, sb.root_ino) {
        Err(e) => {
            assert(damage(bytes, sb, m, (What::BadRootInode(e), none)));
        },
        Ok(root) => {
            if root.mode / 0x1000 != 4 {
                assert(damage(bytes, sb, m, (What::RootNotDir, none)));
            }
            match root_list(v, root) {
                Err(e) => {
                    assert(damage(bytes, sb, m, (What::BadRootDir(e), none)));
                },
                Ok(es) => {
                    assert forall|flaw: dir::DirFlaw| sb.blocksize >= 2048 implies !#[trigger] has_flaw(
                        v,
                        sb.uuid@,
                        root,
                        flaw,
                    ) by {
                        if has_flaw(v, sb.uuid@, root, flaw) {
                            assert(damage(bytes, sb, m, (What::RootFlaw(flaw), none)));
                        }
                    }
                    assert forall|k: int| 0 <= k < es.len() implies file_vouched(
                        v,
                        sb.inodesize,
                        #[trigger] es[k],
                    ) by {
                        lemma_file_vouched(bytes, sb, m, root, es, k);
                    }
                },
            }
        },
    }
}

#[verifier::rlimit(40)]
#[verifier::spinoff_prover]
proof fn lemma_group_vouched(bytes: Seq<u8>, sb: Superblock, m: Groups, i: int)
    requires
        forall|f: Found| !#[trigger] damage(bytes, sb, m, f),
        0 <= i < m.entries.len(),
    ensures
        group_vouched(Vol { bytes, groups: m.entries, bs: sb.blocksize }, i),
{
    let v = Vol { bytes, groups: m.entries, bs: sb.blocksize };
    let g = v.groups[i];
    let ag = i as u32;
    let none = Seq::<char>::empty();
    if in_use(v, i) {
        let w = What::MapCovers { ag, mapped: blocks_of(g.segs) as u128, length: g.length };
        assert(!damage(bytes, sb, m, (w, none)));
        assert(!group_damage(v, i, (w, none)));
        match fs::header_of(v, Map::empty(), ag) {
            Err(error) => {
                let w = What::BadHeader { ag, error };
                assert(!damage(bytes, sb, m, (w, none)));
                assert(!group_damage(v, i, (w, none)));
            },
            Ok(h) => {
                let w1 = What::HeaderNum { ag, num: h.ag_num };
                assert(!damage(bytes, sb, m, (w1, none)));
                assert(!group_damage(v, i, (w1, none)));
                let w2 = What::HeaderLength { ag, header: h.length, map: g.length };
                assert(!damage(bytes, sb, m, (w2, none)));
                assert(!group_damage(v, i, (w2, none)));
                match tally_of(v, h) {
                    Err(error) => {
                        let w3 = What::BadRootTable { ag, error };
                        assert(!damage(bytes, sb, m, (w3, none)));
                        assert(!group_damage(v, i, (w3, none)));
                        let w4 = What::BadRecord { ag, error };
                        assert(!damage(bytes, sb, m, (w4, none)));
                        assert(!group_damage(v, i, (w4, none)));
                    },
                    Ok(n) => {
                        let w5 = What::FreeCount {
                            ag,
                            table: n.free as u64,
                            header: h.free_blocks,
                        };
                        assert(!damage(bytes, sb, m, (w5, none)));
                        assert(!group_damage(v, i, (w5, none)));
                        let w6 = What::FullCount {
                            ag,
                            table: n.full as u64,
                            header: h.full_blocks,
                        };
                        assert(!damage(bytes, sb, m, (w6, none)));
                        assert(!group_damage(v, i, (w6, none)));
                    },
                }
            },
        }
    }
}

#[verifier::rlimit(40)]
#[verifier::spinoff_prover]
proof fn lemma_file_vouched(
    bytes: Seq<u8>,
    sb: Superblock,
    m: Groups,
    root: Inode,
    es: Seq<Dirent>,
    k: int,
)
    requires
        forall|f: Found| !#[trigger] damage(bytes, sb, m, f),
        ({
            let v = Vol { bytes, groups: m.entries, bs: sb.blocksize };
            &&& fs::inode_of(v, sb.inodesize, sb.root_ino) == Ok::<Inode, FsError>(root)
            &&& root.mode / 0x1000 == 4
            &&& root_list(v, root) == Ok::<Seq<Dirent>, FsError>(es)
        }),
        0 <= k < es.len(),
    ensures
        file_vouched(
            Vol { bytes, groups: m.entries, bs: sb.blocksize },
            sb.inodesize,
            es[k],
        ),
{
    let v = Vol { bytes, groups: m.entries, bs: sb.blocksize };
    let e = es[k];
    assert(fs::inode_of(v, sb.inodesize, sb.root_ino) == Ok::<Inode, FsError>(root));
    assert(root_list(v, root) == Ok::<Seq<Dirent>, FsError>(es));
    assert forall|f: Found| entry_damage(v, sb.inodesize, es[k], f) implies #[trigger] root_damage(
        v,
        sb,
        f,
    ) by {
        let es2 = root_list(v, root)->Ok_0;
        assert(entry_damage(v, sb.inodesize, es2[k], f));
        assert(exists|j: int|
            0 <= j < es2.len() && entry_damage(v, sb.inodesize, #[trigger] es2[j], f));
    }
    match fs::inode_of(v, sb.inodesize, e.ino) {
        Err(error) => {
            let f = (What::BadEntry(error), e.name);
            assert(entry_damage(v, sb.inodesize, es[k], f));
            assert(root_damage(v, sb, f));
            assert(!damage(bytes, sb, m, f));
        },
        Ok(i) => {
            if i.format == crate::fmt::FMT_EXTENT {
                let xs = inode::extents_of(i.payload@);
                assert forall|j: int| 0 <= j < xs.len() implies !hangs(v, #[trigger] xs[j]) by {
                    if hangs(v, xs[j]) {
                        let f = (What::NotMapped { blk: xs[j].blk }, e.name);
                        assert(file_damage(v, i, f.0));
                        assert(entry_damage(v, sb.inodesize, es[k], f));
                        assert(root_damage(v, sb, f));
                        assert(!damage(bytes, sb, m, f));
                    }
                }
                let f = (
                    What::Covers {
                        blocks: extent_blocks(xs) as u64,
                        needed: ((i.size + v.bs - 1) / v.bs as int) as u64,
                    },
                    e.name,
                );
                if extent_blocks(xs) * v.bs < i.size {
                    assert(file_damage(v, i, f.0));
                    assert(entry_damage(v, sb.inodesize, es[k], f));
                    assert(root_damage(v, sb, f));
                    assert(!damage(bytes, sb, m, f));
                }
            }
        },
    }
}

} // verus!
