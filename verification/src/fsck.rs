//! Structural filesystem check (read-only).

use crate::agmap::Group;
use crate::device::Device;
use crate::dir::DirFlaw;
use crate::dirent::{DirEntry, Dirent};
use crate::error::FsError;
use crate::fmt::{
    cell_get, div_up, get_u16, get_u32, FmtError, AGF_PRESENT, AGF_RETIRED, CELL_FREE, CELL_FULL,
    CELL_REFINED, FMT_EMBED, FMT_EMPTY, FMT_EXTENT, SB_SIZE,
};
use crate::fs::{backup_offset, Gofs};
use crate::header::{rt_geometry, rt_ref_off, rt_table_blocks, AgHeader};
use crate::inode::{extents_parse, Extent, Inode};
use crate::record::{rec_ref, rec_state};
use crate::superblock::Superblock;
use crate::txn::Txn;
use crate::vol::Vol;
use vstd::prelude::*;

use crate::agmap;
use crate::device;
use crate::dir;
use crate::dirent;
use crate::fmt;
use crate::fs;
use crate::header;
use crate::import;
use crate::inode;
use crate::mapping;
use crate::record;
use crate::roottable;
use crate::superblock;
use crate::utf16;

verus! {

/// What the check can come upon.
#[derive(Debug, Clone, Copy, PartialEq, Eq, Structural)]
pub enum What {
    // --- information
    /// The superblock; the finding's name is the label.
    Volume { blocksize: u32, inodesize: u16, gen: u64 },
    MapCopy { copy: u8, gen: u64 },
    RootEntries(u64),
    // --- warnings
    MapCopyBad { copy: u8, error: FsError },
    /// Entries of the AG map, and the superblock's `next_ag`.
    EntryCount { entries: u64, next_ag: u32 },
    BackupGen { backup: u64, primary: u64 },
    /// A group that is neither present nor retired.
    Absent(u32),
    /// The superblock's free blocks, and the sum over the groups.
    FreeTotal { superblock: u64, sum: u128 },
    // --- errors
    Incompat(u64),
    BackupUnreadable,
    BackupUuid,
    BackupBad(FmtError),
    /// The segments of a group do not make up its length.
    MapCovers { ag: u32, mapped: u128, length: u32 },
    /// A group's header cannot be read.
    BadHeader { ag: u32, error: FsError },
    HeaderNum { ag: u32, num: u32 },
    HeaderLength { ag: u32, header: u32, map: u32 },
    BadRootTable { ag: u32, error: FsError },
    /// A record of a refined cell cannot be read.
    BadRecord { ag: u32, error: FsError },
    FreeCount { ag: u32, table: u64, header: u32 },
    FullCount { ag: u32, table: u64, header: u32 },
    BadRootInode(FsError),
    RootNotDir,
    BadRootDir(FsError),
    RootFlaw(DirFlaw),
    /// The inode of the named entry cannot be read.
    BadEntry(FsError),
    /// An extent of the named file is not fully mapped.
    NotMapped { blk: u64 },
    /// The extents of the named file are too short for its size.
    Covers { blocks: u64, needed: u64 },
}

/// One finding. `name` is that of the directory entry concerned, if any.
#[derive(Debug, Clone)]
pub struct Finding {
    pub what: What,
    pub name: String,
}

impl View for Finding {
    type V = (What, Seq<char>);

    open spec fn view(&self) -> (What, Seq<char>) {
        (self.what, self.name@)
    }
}

#[derive(Debug, Clone)]
pub struct Report {
    pub errors: Vec<Finding>,
    pub warnings: Vec<Finding>,
    pub info: Vec<Finding>,
}

/// What a `Report` says.
#[verifier::ext_equal]
pub struct Rep {
    pub errors: Seq<(What, Seq<char>)>,
    pub warnings: Seq<(What, Seq<char>)>,
    pub info: Seq<(What, Seq<char>)>,
}

impl View for Report {
    type V = Rep;

    open spec fn view(&self) -> Rep {
        Rep {
            errors: self.errors@.map_values(|f: Finding| f@),
            warnings: self.warnings@.map_values(|f: Finding| f@),
            info: self.info@.map_values(|f: Finding| f@),
        }
    }
}

pub open spec fn with_err(r: Rep, w: What, name: Seq<char>) -> Rep {
    Rep { errors: r.errors.push((w, name)), ..r }
}

pub open spec fn with_warn(r: Rep, w: What) -> Rep {
    Rep { warnings: r.warnings.push((w, Seq::empty())), ..r }
}

pub open spec fn with_info(r: Rep, w: What, name: Seq<char>) -> Rep {
    Rep { info: r.info.push((w, name)), ..r }
}

impl Default for Report {
    fn default() -> (r: Self)
        ensures
            r@ == (Rep { errors: Seq::empty(), warnings: Seq::empty(), info: Seq::empty() }),
    {
        let r = Report { errors: Vec::new(), warnings: Vec::new(), info: Vec::new() };
        assert(r@ =~= (Rep { errors: Seq::empty(), warnings: Seq::empty(), info: Seq::empty() }));
        r
    }
}

impl Report {
    fn err_at(&mut self, what: What, name: &str)
        ensures
            final(self)@ == with_err(old(self)@, what, name@),
    {
        self.errors.push(Finding { what, name: name.to_owned() });
        assert(self@ =~= with_err(old(self)@, what, name@));
    }

    fn err(&mut self, what: What)
        ensures
            final(self)@ == with_err(old(self)@, what, Seq::empty()),
    {
        self.errors.push(Finding { what, name: String::new() });
        assert(self@ =~= with_err(old(self)@, what, Seq::empty()));
    }

    fn warn(&mut self, what: What)
        ensures
            final(self)@ == with_warn(old(self)@, what),
    {
        self.warnings.push(Finding { what, name: String::new() });
        assert(self@ =~= with_warn(old(self)@, what));
    }

    fn note(&mut self, what: What, name: String)
        ensures
            final(self)@ == with_info(old(self)@, what, name@),
    {
        self.info.push(Finding { what, name });
        assert(self@ =~= with_info(old(self)@, what, name@));
    }

    /// Whether there is no error; warnings do not count.
    pub fn clean(&self) -> (r: bool)
        ensures
            r == (self@.errors.len() == 0),
    {
        self.errors.len() == 0
    }
}

// --- AG map and backup superblock ---------------------------------------------

pub open spec fn copy_checked(r: Rep, copy: u8, status: Result<u64, FsError>) -> Rep {
    match status {
        Ok(gen) => with_info(r, What::MapCopy { copy, gen }, Seq::empty()),
        Err(error) => with_warn(r, What::MapCopyBad { copy, error }),
    }
}

pub open spec fn count_checked(r: Rep, entries: int, next_ag: u32) -> Rep {
    if entries != next_ag {
        with_warn(r, What::EntryCount { entries: entries as u64, next_ag })
    } else {
        r
    }
}

/// The backup superblock, in the last block of group 0's first segment.
pub open spec fn backup_checked(r: Rep, bytes: Seq<u8>, sb: Superblock, gs: Seq<Group>) -> Rep {
    match fs::backup_place(gs, sb.blocksize) {
        None => r,
        Some(Err(_)) => with_err(r, What::BackupUnreadable, Seq::empty()),
        Some(Ok(off)) => match device::dev_read(bytes, off, SB_SIZE as int) {
            Err(_) => with_err(r, What::BackupUnreadable, Seq::empty()),
            Ok(b) => match superblock::sb_parse(b) {
                Err(e) => with_err(r, What::BackupBad(e), Seq::empty()),
                Ok(bak) => if bak.uuid@ != sb.uuid@ {
                    with_err(r, What::BackupUuid, Seq::empty())
                } else if bak.gen != sb.gen {
                    with_warn(r, What::BackupGen { backup: bak.gen, primary: sb.gen })
                } else {
                    r
                },
            },
        },
    }
}

// --- groups -------------------------------------------------------------------

/// Free and full blocks.
#[verifier::ext_equal]
pub struct Tally {
    pub free: int,
    pub full: int,
}

/// The tally with a part of `n` blocks in state `st` added.
pub open spec fn plus(a: Tally, st: u8, n: int) -> Tally {
    if st == CELL_FREE {
        Tally { free: a.free + n, ..a }
    } else if st == CELL_FULL {
        Tally { full: a.full + n, ..a }
    } else {
        a
    }
}

/// The blocks from `i` on of a level-1 record. A block refined into inode
/// slots is in use.
pub open spec fn blocks_counted(rec: Seq<u8>, a: Tally, i: int) -> Tally
    decreases 16 - i,
{
    if i >= 16 {
        a
    } else {
        let st = fmt::cell_at(rec, i);
        blocks_counted(
            rec,
            plus(
                a,
                if st == CELL_REFINED {
                    CELL_FULL
                } else {
                    st
                },
                1,
            ),
            i + 1,
        )
    }
}

/// The subcells from `i` on of a level-0 record.
pub open spec fn subcells_counted(v: Vol, ag: u32, rec: Seq<u8>, a: Tally, i: int) -> Result<
    Tally,
    FsError,
>
    decreases 16 - i,
{
    if i >= 16 {
        Ok(a)
    } else {
        let st = fmt::cell_at(rec, i);
        if st == CELL_REFINED {
            match roottable::record_of(v, Map::empty(), ag, record::ref_of(rec, i)) {
                Err(e) => Err(e),
                Ok(sub) => subcells_counted(v, ag, rec, blocks_counted(sub, a, 0), i + 1),
            }
        } else {
            subcells_counted(v, ag, rec, plus(a, st, 16), i + 1)
        }
    }
}

/// The reference of cell `c` in a root table.
pub open spec fn table_ref(t: Seq<u8>, cells: int, c: int) -> (u32, u16) {
    let off = header::state_bytes(cells) + 6 * c;
    (fmt::u32_at(t, off), fmt::u16_at(t, off + 4))
}

/// The cells from `c` on of a group.
pub open spec fn cells_counted(v: Vol, ag: u32, t: Seq<u8>, cells: int, a: Tally, c: int) -> Result<
    Tally,
    FsError,
>
    decreases cells - c,
{
    if c >= cells {
        Ok(a)
    } else {
        let st = fmt::cell_at(t, c);
        if st == CELL_REFINED {
            match roottable::record_of(v, Map::empty(), ag, table_ref(t, cells, c)) {
                Err(e) => Err(e),
                Ok(rec) => match subcells_counted(v, ag, rec, a, 0) {
                    Err(e) => Err(e),
                    Ok(b) => cells_counted(v, ag, t, cells, b, c + 1),
                },
            }
        } else {
            cells_counted(v, ag, t, cells, plus(a, st, 256), c + 1)
        }
    }
}

/// The header's counters against the tally of the allocator's tables.
pub open spec fn counters_checked(r: Rep, ag: u32, h: AgHeader, n: Result<Tally, FsError>) -> Rep {
    match n {
        Err(error) => with_err(r, What::BadRecord { ag, error }, Seq::empty()),
        Ok(n) => {
            let r1 = if n.free != h.free_blocks {
                with_err(
                    r,
                    What::FreeCount { ag, table: n.free as u64, header: h.free_blocks },
                    Seq::empty(),
                )
            } else {
                r
            };
            if n.full != h.full_blocks {
                with_err(
                    r1,
                    What::FullCount { ag, table: n.full as u64, header: h.full_blocks },
                    Seq::empty(),
                )
            } else {
                r1
            }
        },
    }
}

/// Blocks that the segments cover together.
pub open spec fn mapped_blocks(segs: Seq<agmap::AgSegment>) -> int
    decreases segs.len(),
{
    if segs.len() == 0 {
        0
    } else {
        mapped_blocks(segs.drop_last()) + segs.last().blocks
    }
}

/// Checking one group: the report, and what its header adds to the sum of
/// free blocks.
pub open spec fn group_checked(v: Vol, r: Rep, ag: u32, g: Group) -> (Rep, int) {
    if g.flags / 4 % 2 == 1 {
        (r, 0)
    } else if !agmap::is_present(g.flags) {
        (with_warn(r, What::Absent(ag)), 0)
    } else if mapped_blocks(g.segs) != g.length {
        (
            with_err(
                r,
                What::MapCovers { ag, mapped: mapped_blocks(g.segs) as u128, length: g.length },
                Seq::empty(),
            ),
            0,
        )
    } else {
        match fs::header_of(v, Map::empty(), ag) {
            Err(error) => (with_err(r, What::BadHeader { ag, error }, Seq::empty()), 0),
            Ok(h) => {
                let r1 = if h.ag_num != ag {
                    with_err(r, What::HeaderNum { ag, num: h.ag_num }, Seq::empty())
                } else {
                    r
                };
                let r2 = if h.length != g.length {
                    with_err(
                        r1,
                        What::HeaderLength { ag, header: h.length, map: g.length },
                        Seq::empty(),
                    )
                } else {
                    r1
                };
                match import::root_table_of(v, h) {
                    Err(error) => (
                        with_err(r2, What::BadRootTable { ag, error }, Seq::empty()),
                        0,
                    ),
                    Ok(t) => (
                        counters_checked(
                            r2,
                            ag,
                            h,
                            cells_counted(
                                v,
                                h.ag_num,
                                t,
                                header::cell_count(h.length),
                                Tally { free: 0, full: 0 },
                                0,
                            ),
                        ),
                        h.free_blocks as int,
                    ),
                }
            },
        }
    }
}

/// Checking the groups from `i` on, `sum` free blocks having been counted.
pub open spec fn groups_checked(v: Vol, r: Rep, sum: int, i: int) -> (Rep, int)
    decreases v.groups.len() - i,
{
    if i >= v.groups.len() {
        (r, sum)
    } else {
        let (r1, n) = group_checked(v, r, i as u32, v.groups[i]);
        groups_checked(v, r1, sum + n, i + 1)
    }
}

pub open spec fn total_checked(r: Rep, sum: int, sb: Superblock) -> Rep {
    if sum != sb.free_blocks {
        with_warn(r, What::FreeTotal { superblock: sb.free_blocks, sum: sum as u128 })
    } else {
        r
    }
}

// --- root directory -----------------------------------------------------------

/// Whether the first and the last block of an extent are mapped.
pub open spec fn extent_mapped(gs: Seq<Group>, bs: u32, e: Extent) -> bool {
    &&& agmap::resolve_in(gs, e.blk, bs) is Some
    &&& e.blk + (e.blocks - 1) <= u64::MAX
    &&& agmap::resolve_in(gs, (e.blk + (e.blocks - 1)) as u64, bs) is Some
}

/// Unmapped extents among the first `n`.
pub open spec fn unmapped(gs: Seq<Group>, bs: u32, es: Seq<Extent>, n: int) -> Seq<What>
    decreases n,
{
    if n <= 0 {
        Seq::empty()
    } else if extent_mapped(gs, bs, es[n - 1]) {
        unmapped(gs, bs, es, n - 1)
    } else {
        unmapped(gs, bs, es, n - 1).push(What::NotMapped { blk: es[n - 1].blk })
    }
}

/// Blocks that the first `n` extents cover.
pub open spec fn covered(es: Seq<Extent>, n: int) -> int
    decreases n,
{
    if n <= 0 {
        0
    } else {
        covered(es, n - 1) + es[n - 1].blocks
    }
}

/// What is wrong with the extents of a file.
pub open spec fn extent_flaws(gs: Seq<Group>, bs: u32, i: Inode) -> Seq<What> {
    let es = inode::extents_of(i.payload@);
    let n = es.len() as int;
    let needed = fmt::ceil_div(i.size as int, bs as int);
    if i.format != FMT_EXTENT {
        Seq::empty()
    } else if covered(es, n) < needed {
        unmapped(gs, bs, es, n).push(
            What::Covers { blocks: covered(es, n) as u64, needed: needed as u64 },
        )
    } else {
        unmapped(gs, bs, es, n)
    }
}

/// The findings, under a name, added as errors.
pub open spec fn with_errs(r: Rep, ws: Seq<What>, name: Seq<char>) -> Rep
    decreases ws.len(),
{
    if ws.len() == 0 {
        r
    } else {
        with_err(with_errs(r, ws.drop_last(), name), ws.last(), name)
    }
}

/// Checking the directory entries from `k` on.
pub open spec fn entries_checked(v: Vol, isz: u16, r: Rep, es: Seq<Dirent>, k: int) -> Rep
    decreases es.len() - k,
{
    if k >= es.len() {
        r
    } else {
        let r1 = match fs::inode_of(v, isz, es[k].ino) {
            Err(e) => with_err(r, What::BadEntry(e), es[k].name),
            Ok(i) => with_errs(r, extent_flaws(v.groups, v.bs, i), es[k].name),
        };
        entries_checked(v, isz, r1, es, k + 1)
    }
}

/// The entries of the root directory.
pub open spec fn root_entries(v: Vol, root: Inode) -> Result<Seq<Dirent>, FsError> {
    if v.bs < 2048 && root.format != FMT_EMPTY && root.format != FMT_EMBED {
        Err(FsError::DirFormat(root.format))
    } else {
        dir::listed(v, Map::empty(), true, mapping::mp_of(root))
    }
}

/// The structure of the root directory.
pub open spec fn root_flaws(v: Vol, uuid: Seq<u8>, root: Inode) -> Seq<What> {
    if v.bs < 2048 {
        Seq::empty()
    } else {
        match dir::dir_flaws(v, Map::empty(), uuid, mapping::mp_of(root)) {
            Err(_) => Seq::empty(),
            Ok(fl) => fl.map_values(|f: DirFlaw| What::RootFlaw(f)),
        }
    }
}

/// Checking the root inode, the root directory, and the files in it.
pub open spec fn root_checked(v: Vol, r: Rep, sb: Superblock) -> Rep {
    match fs::inode_of(v, sb.inodesize, sb.root_ino) {
        Err(e) => with_err(r, What::BadRootInode(e), Seq::empty()),
        Ok(root) => if !root.spec_is_dir() {
            with_err(r, What::RootNotDir, Seq::empty())
        } else {
            match root_entries(v, root) {
                Err(e) => with_err(r, What::BadRootDir(e), Seq::empty()),
                Ok(es) => {
                    let r1 = with_info(r, What::RootEntries(es.len() as u64), Seq::empty());
                    let r2 = with_errs(r1, root_flaws(v, sb.uuid@, root), Seq::empty());
                    entries_checked(v, sb.inodesize, r2, es, 0)
                },
            }
        },
    }
}

// --- the whole ----------------------------------------------------------------

/// Checking a volume whose superblock is `sb`, `r` having been reported.
pub open spec fn volume_checked(bytes: Seq<u8>, sb: Superblock, r: Rep) -> Result<Rep, FsError> {
    match fs::best_map(bytes, sb) {
        None => Err(FsError::NoAgMap),
        Some(m) => {
            let v = Vol { bytes, groups: m.entries, bs: sb.blocksize };
            let r = copy_checked(r, 0, fs::copy_status(fs::map_copy(bytes, sb, 0)));
            let r = copy_checked(r, 1, fs::copy_status(fs::map_copy(bytes, sb, 1)));
            let r = count_checked(r, m.entries.len() as int, sb.next_ag);
            let r = backup_checked(r, bytes, sb, m.entries);
            let (r, sum) = groups_checked(v, r, 0, 0);
            let r = total_checked(r, sum, sb);
            Ok(root_checked(v, r, sb))
        },
    }
}

/// The label of a volume.
pub open spec fn label_of(sb: Superblock) -> Seq<char> {
    utf16::decode_utf16(sb.disk_name@.take(superblock::name_len(sb.disk_name@) as int))
}

/// The report on a volume; an error where not even its superblock, or no AG
/// map, can be read.
pub open spec fn checked(bytes: Seq<u8>) -> Result<Rep, FsError> {
    match device::dev_read(bytes, 0, SB_SIZE as int) {
        Err(e) => Err(e),
        Ok(b) => match superblock::sb_parse(b) {
            Err(e) => Err(FsError::Super(e)),
            Ok(sb) => {
                let r = Rep {
                    errors: Seq::empty(),
                    warnings: Seq::empty(),
                    info: seq![
                        (
                            What::Volume {
                                blocksize: sb.blocksize,
                                inodesize: sb.inodesize,
                                gen: sb.gen,
                            },
                            label_of(sb),
                        ),
                    ],
                };
                if sb.incompat != 0 {
                    Ok(with_err(r, What::Incompat(sb.incompat), Seq::empty()))
                } else {
                    volume_checked(bytes, sb, r)
                }
            },
        },
    }
}

/// A running tally.
#[derive(Clone, Copy)]
struct Count {
    free: u64,
    full: u64,
}

impl Count {
    spec fn tally(self) -> Tally {
        Tally { free: self.free as int, full: self.full as int }
    }

    /// Add a part of `n` blocks in state `st`.
    fn plus(self, st: u8, n: u64) -> (r: Count)
        requires
            self.free + self.full + n <= u64::MAX,
        ensures
            r.tally() == plus(self.tally(), st, n as int),
            r.free + r.full <= self.free + self.full + n,
    {
        if st == CELL_FREE {
            Count { free: self.free + n, full: self.full }
        } else if st == CELL_FULL {
            Count { free: self.free, full: self.full + n }
        } else {
            self
        }
    }
}

/// Count the blocks of a level-1 record.
fn count_blocks(rec: &[u8; 128], a: Count) -> (r: Count)
    requires
        a.free + a.full <= 0x1_0000_0000,
    ensures
        r.tally() == blocks_counted(rec@, a.tally(), 0),
        r.free + r.full <= a.free + a.full + 16,
{
    let mut n = a;
    let mut i: u32 = 0;
    while i < 16
        invariant
            i <= 16,
            a.free + a.full <= 0x1_0000_0000,
            n.free + n.full <= a.free + a.full + i,
            blocks_counted(rec@, a.tally(), 0) == blocks_counted(rec@, n.tally(), i as int),
        decreases 16 - i,
    {
        let st = rec_state(rec, i);
        n = n.plus(if st == CELL_REFINED { CELL_FULL } else { st }, 1);
        i = i + 1;
    }
    n
}

/// Add findings under a name.
fn add_errs(r: &mut Report, ws: &Vec<What>, name: &str)
    ensures
        final(r)@ == with_errs(old(r)@, ws@, name@),
{
    let mut k: usize = 0;
    assert(ws@.take(0) =~= Seq::<What>::empty());
    while k < ws.len()
        invariant
            k <= ws@.len(),
            r@ == with_errs(old(r)@, ws@.take(k as int), name@),
        decreases ws@.len() - k,
    {
        r.err_at(ws[k], name);
        k = k + 1;
        assert(ws@.take(k as int).drop_last() =~= ws@.take(k - 1));
    }
    assert(ws@.take(ws@.len() as int) =~= ws@);
}

/// Check the extents of an inode.
pub fn extents_check(fs: &Gofs, inode: &Inode) -> (r: Vec<What>)
    requires
        fs.wf(),
    ensures
        r@ == extent_flaws(fs.map@.entries, fs.sb.blocksize, *inode),
{
    let mut out: Vec<What> = Vec::new();
    if inode.format != FMT_EXTENT {
        assert(out@ =~= Seq::<What>::empty());
        return out;
    }
    let bs = fs.sb.blocksize;
    let ghost gs = fs.map@.entries;
    let es = extents_parse(&inode.payload);
    proof {
        lemma_extents_nonempty(inode.payload@, 0);
    }
    let mut total: u64 = 0;
    let mut k: usize = 0;
    assert(out@ =~= unmapped(gs, bs, es@, 0));
    while k < es.len()
        invariant
            k <= es@.len() <= 6,
            gs == fs.map@.entries,
            bs == fs.sb.blocksize,
            fs.wf(),
            es@ == inode::extents_of(inode.payload@),
            forall|j: int| 0 <= j < es@.len() ==> (#[trigger] es@[j]).blocks > 0,
            out@ == unmapped(gs, bs, es@, k as int),
            total == covered(es@, k as int),
            total <= k * 0xffff_ffff,
        decreases es@.len() - k,
    {
        let e = es[k];
        let last = e.blk.checked_add((e.blocks - 1) as u64);
        let mapped = match last {
            Some(b) => fs.map.resolve(e.blk, bs).is_some() && fs.map.resolve(b, bs).is_some(),
            None => false,
        };
        if !mapped {
            out.push(What::NotMapped { blk: e.blk });
        }
        total = total + e.blocks as u64;
        k = k + 1;
    }
    let needed = div_up(inode.size, bs as u64);
    if total < needed {
        out.push(What::Covers { blocks: total, needed });
    }
    out
}

/// Extents that are listed are not empty.
proof fn lemma_extents_nonempty(p: Seq<u8>, i: int)
    requires
        0 <= i,
    ensures
        forall|j: int|
            0 <= j < inode::extents_from(p, i).len() ==> (#[trigger] inode::extents_from(
                p,
                i,
            )[j]).blocks > 0,
    decreases 6 - i,
{
    if i < 6 && fmt::u32_at(p, 20 * i + 16) != 0 {
        lemma_extents_nonempty(p, i + 1);
        let rest = inode::extents_from(p, i + 1);
        assert forall|j: int| 0 <= j < inode::extents_from(p, i).len() implies (
        #[trigger] inode::extents_from(p, i)[j]).blocks > 0 by {
            if j > 0 {
                assert(inode::extents_from(p, i)[j] == rest[j - 1]);
            }
        }
    }
}

impl Gofs {
    /// Count the blocks of a level-0 record.
    fn count_subcells(&self, t: &Txn, ag: u32, rec: &[u8; 128], a: Count) -> (r: Result<
        Count,
        FsError,
    >)
        requires
            self.wf(),
            t.wf(self.sb.blocksize),
            t@ == Map::<u64, Seq<u8>>::empty(),
            a.free + a.full <= 0xffff_ff00,
        ensures
            match r {
                Ok(n) => subcells_counted(self.vol(), ag, rec@, a.tally(), 0) == Ok::<
                    Tally,
                    FsError,
                >(n.tally()) && n.free + n.full <= a.free + a.full + 256,
                Err(e) => subcells_counted(self.vol(), ag, rec@, a.tally(), 0) == Err::<
                    Tally,
                    FsError,
                >(e),
            },
    {
        let mut n = a;
        let mut i: u32 = 0;
        let ghost want = subcells_counted(self.vol(), ag, rec@, a.tally(), 0);
        while i < 16
            invariant
                i <= 16,
                self.wf(),
                t.wf(self.sb.blocksize),
                t@ == Map::<u64, Seq<u8>>::empty(),
                a.free + a.full <= 0xffff_ff00,
                n.free + n.full <= a.free + a.full + 16 * i,
                want == subcells_counted(self.vol(), ag, rec@, a.tally(), 0),
                want == subcells_counted(self.vol(), ag, rec@, n.tally(), i as int),
            decreases 16 - i,
        {
            let st = rec_state(rec, i);
            if st == CELL_REFINED {
                let sub = self.rec_read(t, ag, rec_ref(rec, i))?;
                n = count_blocks(&sub, n);
            } else {
                n = n.plus(st, 16);
            }
            i = i + 1;
        }
        Ok(n)
    }

    /// Count the blocks of a group by its root table.
    fn count_cells(&self, t: &Txn, hdr: &AgHeader, table: &Vec<u8>) -> (r: Result<Count, FsError>)
        requires
            self.wf(),
            t.wf(self.sb.blocksize),
            t@ == Map::<u64, Seq<u8>>::empty(),
            table@.len() >= header::state_bytes(header::cell_count(hdr.length)) + 6
                * header::cell_count(hdr.length),
        ensures
            match r {
                Ok(n) => cells_counted(
                    self.vol(),
                    hdr.ag_num,
                    table@,
                    header::cell_count(hdr.length),
                    Tally { free: 0, full: 0 },
                    0,
                ) == Ok::<Tally, FsError>(n.tally()),
                Err(e) => cells_counted(
                    self.vol(),
                    hdr.ag_num,
                    table@,
                    header::cell_count(hdr.length),
                    Tally { free: 0, full: 0 },
                    0,
                ) == Err::<Tally, FsError>(e),
            },
    {
        let (cells, _) = rt_geometry(hdr.length, self.sb.blocksize);
        proof {
            fmt::lemma_ceil_div(cells as int, 4);
        }
        let mut n = Count { free: 0, full: 0 };
        let mut c: u64 = 0;
        let ag = hdr.ag_num;
        let ghost v = self.vol();
        let ghost want = cells_counted(v, ag, table@, cells as int, n.tally(), 0);
        while c < cells
            invariant
                c <= cells <= 0x100_0000,
                self.wf(),
                v == self.vol(),
                ag == hdr.ag_num,
                cells == header::cell_count(hdr.length),
                t.wf(self.sb.blocksize),
                t@ == Map::<u64, Seq<u8>>::empty(),
                header::state_bytes(cells as int) >= (cells + 3) / 4,
                table@.len() >= header::state_bytes(cells as int) + 6 * cells,
                n.free + n.full <= 256 * c,
                want == cells_counted(
                    v,
                    ag,
                    table@,
                    cells as int,
                    Tally { free: 0, full: 0 },
                    0,
                ),
                want == cells_counted(v, ag, table@, cells as int, n.tally(), c as int),
            decreases cells - c,
        {
            let st = cell_get(table, c);
            if st == CELL_REFINED {
                assert(table.len() == table@.len());
                let off = rt_ref_off(cells, c) as usize;
                let r = (get_u32(table, off), get_u16(table, off + 4));
                let rec = self.rec_read(t, ag, r)?;
                n = self.count_subcells(t, ag, &rec, n)?;
            } else {
                n = n.plus(st, 256);
            }
            c = c + 1;
        }
        Ok(n)
    }

    /// Check the counters of a group against its tables.
    fn check_counters(&self, r: &mut Report, ag: u32, hdr: &AgHeader, table: &Vec<u8>)
        requires
            self.wf(),
            table@.len() >= header::state_bytes(header::cell_count(hdr.length)) + 6
                * header::cell_count(hdr.length),
        ensures
            final(r)@ == counters_checked(
                old(r)@,
                ag,
                *hdr,
                cells_counted(
                    self.vol(),
                    hdr.ag_num,
                    table@,
                    header::cell_count(hdr.length),
                    Tally { free: 0, full: 0 },
                    0,
                ),
            ),
    {
        let t = self.txn();
        match self.count_cells(&t, hdr, table) {
            Ok(n) => {
                if n.free != hdr.free_blocks as u64 {
                    r.err(What::FreeCount { ag, table: n.free, header: hdr.free_blocks });
                }
                if n.full != hdr.full_blocks as u64 {
                    r.err(What::FullCount { ag, table: n.full, header: hdr.full_blocks });
                }
            },
            Err(error) => r.err(What::BadRecord { ag, error }),
        }
    }

    /// Check one group; returns what its header adds to the free blocks.
    fn check_group(&self, r: &mut Report, i: usize) -> (n: u32)
        requires
            self.wf(),
            i < self.map.entries@.len(),
        ensures
            (final(r)@, n as int) == group_checked(
                self.vol(),
                old(r)@,
                i as u32,
                self.map@.entries[i as int],
            ),
    {
        let e = &self.map.entries[i];
        let ag = i as u32;
        let flags = e.flags;
        proof {
            assert(self.map@.entries[i as int] == e@);
            agmap::lemma_present_bit(flags);
            assert((flags & 4 != 0) == (flags / 4 % 2 == 1)) by (bit_vector);
        }
        if flags & AGF_RETIRED != 0 {
            return 0;
        }
        if flags & AGF_PRESENT == 0 {
            r.warn(What::Absent(ag));
            return 0;
        }
        let mut mapped: u128 = 0;
        let mut j: usize = 0;
        assert(e.segs@.take(0) =~= Seq::<agmap::AgSegment>::empty());
        while j < e.segs.len()
            invariant
                j <= e.segs@.len(),
                mapped == mapped_blocks(e.segs@.take(j as int)),
                mapped <= j * 0xffff_ffff,
            decreases e.segs@.len() - j,
        {
            mapped = mapped + e.segs[j].blocks as u128;
            j = j + 1;
            assert(e.segs@.take(j as int).drop_last() =~= e.segs@.take(j - 1));
        }
        assert(e.segs@.take(e.segs@.len() as int) =~= e.segs@);
        if mapped != e.length as u128 {
            r.err(What::MapCovers { ag, mapped, length: e.length });
            return 0;
        }
        let hdr = match self.read_ag_header(ag) {
            Ok(h) => h,
            Err(error) => {
                r.err(What::BadHeader { ag, error });
                return 0;
            },
        };
        if hdr.ag_num != ag {
            r.err(What::HeaderNum { ag, num: hdr.ag_num });
        }
        if hdr.length != e.length {
            r.err(What::HeaderLength { ag, header: hdr.length, map: e.length });
        }
        // allocator state tally vs counters
        let _ = rt_table_blocks(hdr.length, self.sb.blocksize);
        match self.read_root_table(&hdr) {
            Ok(table) => {
                self.check_counters(r, ag, &hdr, &table);
                hdr.free_blocks
            },
            Err(error) => {
                r.err(What::BadRootTable { ag, error });
                0
            },
        }
    }

    /// Check the groups; returns the sum of their free blocks.
    fn check_groups(&self, r: &mut Report) -> (sum: u128)
        requires
            self.wf(),
        ensures
            (final(r)@, sum as int) == groups_checked(self.vol(), old(r)@, 0, 0),
    {
        let mut sum: u128 = 0;
        let mut i: usize = 0;
        let ghost v = self.vol();
        while i < self.map.entries.len()
            invariant
                i <= self.map.entries@.len(),
                self.wf(),
                v == self.vol(),
                v.groups.len() == self.map.entries@.len(),
                sum <= i * 0xffff_ffff,
                groups_checked(v, old(r)@, 0, 0) == groups_checked(
                    v,
                    r@,
                    sum as int,
                    i as int,
                ),
            decreases self.map.entries@.len() - i,
        {
            let n = self.check_group(r, i);
            sum = sum + n as u128;
            i = i + 1;
        }
        sum
    }
}

/// Whether two identities are the same.
fn same_uuid(a: &[u8; 16], b: &[u8; 16]) -> (r: bool)
    ensures
        r == (a@ == b@),
{
    let mut i: usize = 0;
    while i < 16
        invariant
            i <= 16,
            forall|k: int| 0 <= k < i ==> a@[k] == b@[k],
        decreases 16 - i,
    {
        if a[i] != b[i] {
            assert(a@[i as int] != b@[i as int]);
            return false;
        }
        i = i + 1;
    }
    assert(a@ =~= b@);
    true
}

impl Gofs {
    /// Check the backup superblock.
    fn check_backup(&self, r: &mut Report)
        requires
            self.wf(),
        ensures
            final(r)@ == backup_checked(old(r)@, self.dev@.bytes, self.sb, self.map@.entries),
    {
        let off = match backup_offset(&self.map, self.sb.blocksize) {
            Some(Ok(o)) => o,
            Some(Err(_)) => {
                r.err(What::BackupUnreadable);
                return;
            },
            None => return,
        };
        let mut buf = [0u8; 512];
        if self.dev.pread(&mut buf, off).is_err() {
            r.err(What::BackupUnreadable);
            return;
        }
        match Superblock::parse(&buf) {
            Ok(b) => {
                if !same_uuid(&b.uuid, &self.sb.uuid) {
                    r.err(What::BackupUuid);
                } else if b.gen != self.sb.gen {
                    r.warn(What::BackupGen { backup: b.gen, primary: self.sb.gen });
                }
            },
            Err(e) => r.err(What::BackupBad(e)),
        }
    }

    /// The entries of the root directory.
    fn list_root(&self, t: &Txn, root: &Inode) -> (r: Result<Vec<DirEntry>, FsError>)
        requires
            self.wf(),
            t.wf(self.sb.blocksize),
            t@ == Map::<u64, Seq<u8>>::empty(),
            root.spec_is_dir(),
        ensures
            match r {
                Ok(es) => root_entries(self.vol(), *root) == Ok::<Seq<Dirent>, FsError>(
                    dirent::dirents(es@),
                ),
                Err(e) => root_entries(self.vol(), *root) == Err::<Seq<Dirent>, FsError>(e),
            },
    {
        if self.sb.blocksize >= 2048 {
            return self.dir_list(t, root);
        }
        if root.format == FMT_EMPTY {
            let none: Vec<DirEntry> = Vec::new();
            assert(dirent::dirents(none@) =~= Seq::empty());
            Ok(none)
        } else if root.format == FMT_EMBED {
            Ok(crate::dirent::dir_parse(&root.payload))
        } else {
            Err(FsError::DirFormat(root.format))
        }
    }

    /// Check the structure of the root directory.
    fn check_structure(&self, t: &Txn, root: &Inode) -> (r: Vec<What>)
        requires
            self.wf(),
            t.wf(self.sb.blocksize),
            t@ == Map::<u64, Seq<u8>>::empty(),
        ensures
            r@ == root_flaws(self.vol(), self.sb.uuid@, *root),
    {
        let mut out: Vec<What> = Vec::new();
        if self.sb.blocksize < 2048 {
            assert(out@ =~= Seq::<What>::empty());
            return out;
        }
        match self.dir_check(t, root) {
            Ok(fl) => {
                let ghost want = fl@.map_values(|f: DirFlaw| What::RootFlaw(f));
                let mut i: usize = 0;
                while i < fl.len()
                    invariant
                        i <= fl@.len(),
                        want == fl@.map_values(|f: DirFlaw| What::RootFlaw(f)),
                        out@ =~= want.take(i as int),
                    decreases fl@.len() - i,
                {
                    out.push(What::RootFlaw(fl[i]));
                    i = i + 1;
                }
                assert(out@ =~= want);
            },
            Err(_) => {
                assert(out@ =~= Seq::<What>::empty());
            },
        }
        out
    }

    /// Check the inodes that the entries name.
    fn check_entries(&self, r: &mut Report, es: &Vec<DirEntry>)
        requires
            self.wf(),
        ensures
            final(r)@ == entries_checked(
                self.vol(),
                self.sb.inodesize,
                old(r)@,
                dirent::dirents(es@),
                0,
            ),
    {
        let ghost all = dirent::dirents(es@);
        let ghost v = self.vol();
        let isz = self.sb.inodesize;
        let mut k: usize = 0;
        while k < es.len()
            invariant
                k <= es@.len(),
                all == dirent::dirents(es@),
                all.len() == es@.len(),
                self.wf(),
                v == self.vol(),
                isz == self.sb.inodesize,
                entries_checked(v, isz, old(r)@, all, 0) == entries_checked(
                    v,
                    isz,
                    r@,
                    all,
                    k as int,
                ),
            decreases es@.len() - k,
        {
            assert(all[k as int] == es@[k as int]@);
            let name = es[k].name.as_str();
            match self.read_inode(es[k].ino) {
                Ok(i) => {
                    let ws = extents_check(self, &i);
                    add_errs(r, &ws, name);
                },
                Err(e) => r.err_at(What::BadEntry(e), name),
            }
            k = k + 1;
        }
    }

    /// Check the root inode, the root directory, and the files in it.
    fn check_root(&self, r: &mut Report)
        requires
            self.wf(),
        ensures
            final(r)@ == root_checked(self.vol(), old(r)@, self.sb),
    {
        let root = match self.read_inode(self.sb.root_ino) {
            Ok(i) => i,
            Err(e) => {
                r.err(What::BadRootInode(e));
                return;
            },
        };
        if !root.is_dir() {
            r.err(What::RootNotDir);
            return;
        }
        let t = self.txn();
        let es = match self.list_root(&t, &root) {
            Ok(es) => es,
            Err(e) => {
                r.err(What::BadRootDir(e));
                return;
            },
        };
        r.note(What::RootEntries(es.len() as u64), String::new());
        let ws = self.check_structure(&t, &root);
        proof {
            reveal_strlit("");
            assert(""@ =~= Seq::<char>::empty());
        }
        add_errs(r, &ws, "");
        self.check_entries(r, &es);
    }
}

/// Report on one copy of the AG map.
fn check_copy(r: &mut Report, copy: u8, status: &Result<u64, FsError>)
    ensures
        final(r)@ == copy_checked(old(r)@, copy, *status),
{
    match status {
        Ok(gen) => r.note(What::MapCopy { copy, gen: *gen }, String::new()),
        Err(error) => r.warn(What::MapCopyBad { copy, error: *error }),
    }
}

/// Check the volume on `dev`.
pub fn check(dev: Device) -> (r: Result<Report, FsError>)
    requires
        dev.wf(),
    ensures
        match r {
            Ok(rep) => checked(dev@.bytes) == Ok::<Rep, FsError>(rep@),
            Err(e) => checked(dev@.bytes) == Err::<Rep, FsError>(e),
        },
{
    let mut r = Report::default();
    let mut buf = [0u8; 512];
    dev.pread(&mut buf, 0)?;
    let sb = match Superblock::parse(&buf) {
        Ok(sb) => sb,
        Err(e) => return Err(FsError::Super(e)),
    };
    assert(buf@.take(512) =~= buf@);
    r.note(
        What::Volume { blocksize: sb.blocksize, inodesize: sb.inodesize, gen: sb.gen },
        sb.label(),
    );
    let ghost r0 = r@;
    assert(r0.info =~= seq![
        (
            What::Volume { blocksize: sb.blocksize, inodesize: sb.inodesize, gen: sb.gen },
            label_of(sb),
        ),
    ]);
    if sb.incompat != 0 {
        r.err(What::Incompat(sb.incompat));
        return Ok(r);
    }
    // AG map copies
    let (map, status) = Gofs::load_agmap(&dev, &sb)?;
    check_copy(&mut r, 0, &status[0]);
    check_copy(&mut r, 1, &status[1]);
    let n = map.entries.len() as u64;
    if n != sb.next_ag as u64 {
        r.warn(What::EntryCount { entries: n, next_ag: sb.next_ag });
    }
    let fs = Gofs { dev, sb, map };
    fs.check_backup(&mut r);
    let sum = fs.check_groups(&mut r);
    if sum != fs.sb.free_blocks as u128 {
        r.warn(What::FreeTotal { superblock: fs.sb.free_blocks, sum });
    }
    fs.check_root(&mut r);
    Ok(r)
}

} // verus!
