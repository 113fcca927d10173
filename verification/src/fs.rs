//! Access to a loaded volume: address resolution, superblock, AG map, group
//! headers and inode slots.

use crate::agmap::{AgMap, Groups, AGMAP_HDR};
use crate::device::{Dev, Device};
use crate::error::FsError;
use crate::fmt::{
    blk_addr, blk_split, put_bytes, zero_vec, INODE_SIZE, SB_SIZE,
};
use crate::header::AgHeader;
use crate::inode::Inode;
use crate::superblock::Superblock;
use crate::vol::Vol;
use vstd::prelude::*;

use crate::agmap;
use crate::device;
use crate::fmt;
use crate::header;
use crate::inode;
use crate::superblock;
use crate::vol;

verus! {

pub struct Gofs {
    pub dev: Device,
    pub sb: Superblock,
    pub map: AgMap,
}

// --- loading ------------------------------------------------------------------

/// AG map copy `k` (0 or 1), or why it cannot be used.
pub open spec fn map_copy(bytes: Seq<u8>, sb: Superblock, k: int) -> Result<Groups, FsError> {
    let off = sb.agmap_offset + if k == 0 { 0 } else { sb.agmap_length as int };
    if off > u64::MAX {
        Err(FsError::Corrupt)
    } else {
        match device::dev_read(bytes, off as u64, sb.agmap_length as int) {
            Err(e) => Err(e),
            Ok(b) => match agmap::map_parse(b) {
                Err(e) => Err(FsError::AgMapCopy(e)),
                Ok(m) => Ok(m),
            },
        }
    }
}

/// The generation of a copy, or why there is none.
pub open spec fn copy_status(c: Result<Groups, FsError>) -> Result<u64, FsError> {
    match c {
        Ok(m) => Ok(m.gen),
        Err(e) => Err(e),
    }
}

/// The copy that counts: of two valid ones that of the higher generation, the
/// first where they are level.
pub open spec fn best_map(bytes: Seq<u8>, sb: Superblock) -> Option<Groups> {
    match (map_copy(bytes, sb, 0), map_copy(bytes, sb, 1)) {
        (Ok(a), Ok(b)) => Some(if b.gen > a.gen { b } else { a }),
        (Ok(a), Err(_)) => Some(a),
        (Err(_), Ok(b)) => Some(b),
        (Err(_), Err(_)) => None,
    }
}

/// Superblock and AG map of the volume that `bytes` holds.
pub open spec fn loaded(bytes: Seq<u8>) -> Result<(Superblock, Groups), FsError> {
    match device::dev_read(bytes, 0, SB_SIZE as int) {
        Err(e) => Err(e),
        Ok(b) => match superblock::sb_parse(b) {
            Err(e) => Err(FsError::Super(e)),
            Ok(sb) => match best_map(bytes, sb) {
                None => Err(FsError::NoAgMap),
                Some(m) => Ok((sb, m)),
            },
        },
    }
}

// --- writing ------------------------------------------------------------------

/// Where the backup superblock goes: the last block of the first segment of
/// group 0. `None` if group 0 has no segment.
pub open spec fn backup_place(gs: Seq<agmap::Group>, bs: u32) -> Option<Result<u64, FsError>> {
    if gs.len() > 0 && gs[0].segs.len() > 0 {
        let s = gs[0].segs[0];
        let off = s.dev_offset + (s.blocks - 1) * bs;
        if s.blocks == 0 || off > u64::MAX {
            Some(Err(FsError::Corrupt))
        } else {
            Some(Ok(off as u64))
        }
    } else {
        None
    }
}

/// The writes of a superblock: block 0 and the backup.
pub open spec fn sb_writes(sb: Superblock, gs: Seq<agmap::Group>) -> Seq<
    (Result<u64, FsError>, Seq<u8>),
> {
    let first = (Ok::<u64, FsError>(0u64), superblock::sb_bytes(sb));
    match backup_place(gs, sb.blocksize) {
        None => seq![first],
        Some(p) => seq![first, (p, superblock::sb_bytes(sb))],
    }
}

/// Writing the superblock under its next generation: the device, the
/// superblock in memory and the result.
pub open spec fn sb_write(d: Dev, sb: Superblock, gs: Seq<agmap::Group>) -> (
    Dev,
    Superblock,
    Result<(), FsError>,
) {
    if sb.gen == u64::MAX {
        (d, sb, Err(FsError::Corrupt))
    } else {
        let sb1 = Superblock { gen: (sb.gen + 1) as u64, ..sb };
        let (d1, r) = device::dev_writes(d, sb_writes(sb1, gs));
        (d1, sb1, r)
    }
}

/// Writing the AG map under its next generation: the copy that the
/// generation's parity picks is replaced, the other stays.
pub open spec fn map_write(d: Dev, sb: Superblock, m: Groups) -> (
    Dev,
    Groups,
    Result<(), FsError>,
) {
    if m.gen == u64::MAX {
        (d, m, Err(FsError::Corrupt))
    } else {
        let m1 = Groups { gen: (m.gen + 1) as u64, ..m };
        let off = sb.agmap_offset + if m1.gen % 2 == 0 { 0 } else { sb.agmap_length as int };
        if off > u64::MAX || sb.agmap_length < AGMAP_HDR || sb.agmap_length > d.bytes.len() {
            (d, m1, Err(FsError::Corrupt))
        } else if agmap::groups_size(m1.entries) > sb.agmap_length {
            (d, m1, Err(FsError::AgMapCopy(fmt::FmtError::CapacityExceeded)))
        } else {
            let (d1, r) = device::dev_write(
                d,
                off as u64,
                agmap::map_image(m1, sb.agmap_length as int),
            );
            (
                if r is Ok {
                    device::dev_sync(d1)
                } else {
                    d1
                },
                m1,
                r,
            )
        }
    }
}

// --- group headers ------------------------------------------------------------

/// The block of the group that holds its header: block 0 of group 0 is the
/// superblock.
pub open spec fn header_local(ag: u32) -> u32 {
    if ag == 0 {
        1
    } else {
        0
    }
}

/// The header of a group as a transaction sees it.
pub open spec fn header_of(v: Vol, t: Map<u64, Seq<u8>>, ag: u32) -> Result<AgHeader, FsError> {
    match vol::rd(v, t, fmt::addr_of(ag, header_local(ag))) {
        Err(e) => Err(e),
        Ok(b) => match header::hdr_parse(b) {
            Err(e) => Err(FsError::Header(ag, e)),
            Ok(h) => Ok(h),
        },
    }
}

/// The block that holds header `h`.
pub open spec fn header_block(h: AgHeader, bs: u32) -> Seq<u8> {
    fmt::splice(fmt::zeros(bs as nat), 0, header::hdr_image(h))
}

// --- inode slots --------------------------------------------------------------

/// Where the backup superblock goes.
pub fn backup_offset(map: &AgMap, bs: u32) -> (r: Option<Result<u64, FsError>>)
    ensures
        r == backup_place(map@.entries, bs),
{
    let ghost gs = map@.entries;
    if map.entries.len() == 0 {
        return None;
    }
    assert(gs[0] == map.entries@[0]@);
    if map.entries[0].segs.len() == 0 {
        return None;
    }
    let s = map.entries[0].segs[0];
    if s.blocks == 0 {
        return Some(Err(FsError::Corrupt));
    }
    let n = (s.blocks - 1) as u64;
    assert(n * bs <= 0xffff_ffff * 0xffff_ffff) by (nonlinear_arith)
        requires
            n <= 0xffff_ffff,
            0 <= bs <= 0xffff_ffff,
    ;
    match s.dev_offset.checked_add(n * bs as u64) {
        Some(off) => Some(Ok(off)),
        None => Some(Err(FsError::Corrupt)),
    }
}

/// The block that holds `hdr`.
pub fn header_buf(hdr: &AgHeader, bs: u32) -> (r: Vec<u8>)
    requires
        bs >= 512,
    ensures
        r@ == header_block(*hdr, bs),
        r@.len() == bs,
{
    let mut buf = zero_vec(bs as usize);
    let b = hdr.to_bytes();
    put_bytes(&mut buf, 0, &b);
    buf
}

/// The block that holds an inode slot, and the slot's offset in it.
pub open spec fn inode_spot(bs: u32, isz: u16, ino: u64) -> (u64, int) {
    let byte = fmt::addr_local(ino) * isz;
    (fmt::addr_of(fmt::addr_ag(ino), (byte / bs as int % 0x1_0000_0000) as u32), byte % bs as int)
}

/// The physical offset of an inode slot.
pub open spec fn inode_place(gs: Seq<agmap::Group>, bs: u32, isz: u16, ino: u64) -> Result<
    u64,
    FsError,
> {
    let (blk, off) = inode_spot(bs, isz, ino);
    match vol::place(gs, bs, blk) {
        Err(e) => Err(e),
        Ok(p) => if p + off > u64::MAX {
            Err(FsError::Corrupt)
        } else {
            Ok((p + off) as u64)
        },
    }
}

/// The bytes of an inode slot on the device.
pub open spec fn slot_bytes(v: Vol, isz: u16, ino: u64) -> Result<Seq<u8>, FsError> {
    match inode_place(v.groups, v.bs, isz, ino) {
        Err(e) => Err(e),
        Ok(p) => device::dev_read(v.bytes, p, INODE_SIZE as int),
    }
}

/// The inode in a slot on the device.
pub open spec fn inode_of(v: Vol, isz: u16, ino: u64) -> Result<Inode, FsError> {
    match slot_bytes(v, isz, ino) {
        Err(e) => Err(e),
        Ok(b) => match inode::inode_parse(b) {
            Err(e) => Err(FsError::BadInode(ino, e)),
            Ok(i) => Ok(i),
        },
    }
}

impl Gofs {
    pub open spec fn wf(&self) -> bool {
        &&& self.dev.wf()
        &&& superblock::is_pow2(self.sb.blocksize as int)
        &&& self.sb.blocksize >= 512
    }

    /// What block reads depend on.
    pub open spec fn vol(&self) -> Vol {
        Vol { bytes: self.dev@.bytes, groups: self.map@.entries, bs: self.sb.blocksize }
    }

    /// Load a volume as it stands; the journal is left alone.
    pub fn load(dev: Device) -> (r: Result<Self, FsError>)
        requires
            dev.wf(),
        ensures
            match r {
                Ok(fs) => fs.wf() && fs.dev == dev && loaded(dev@.bytes) == Ok::<
                    (Superblock, Groups),
                    FsError,
                >((fs.sb, fs.map@)),
                Err(e) => loaded(dev@.bytes) == Err::<(Superblock, Groups), FsError>(e),
            },
    {
        let mut sbbuf = [0u8; 512];
        dev.pread(&mut sbbuf, 0)?;
        let sb = match Superblock::parse(&sbbuf) {
            Ok(sb) => sb,
            Err(e) => return Err(FsError::Super(e)),
        };
        assert(sbbuf@.take(512) =~= sbbuf@);
        let (map, _status) = Gofs::load_agmap(&dev, &sb)?;
        Ok(Gofs { dev, sb, map })
    }

    /// Load both AG map copies: the one that counts, and the generation of
    /// each or why it cannot be used.
    pub fn load_agmap(dev: &Device, sb: &Superblock) -> (r: Result<
        (AgMap, [Result<u64, FsError>; 2]),
        FsError,
    >)
        requires
            dev.wf(),
        ensures
            match r {
                Ok((m, status)) => {
                    &&& best_map(dev@.bytes, *sb) == Some(m@)
                    &&& status@[0] == copy_status(map_copy(dev@.bytes, *sb, 0))
                    &&& status@[1] == copy_status(map_copy(dev@.bytes, *sb, 1))
                },
                Err(e) => e == FsError::NoAgMap && best_map(dev@.bytes, *sb) is None,
            },
    {
        let a = Gofs::load_copy(dev, sb, 0);
        let b = Gofs::load_copy(dev, sb, 1);
        match (a, b) {
            (Ok(a), Ok(b)) => {
                let status = [Ok(a.gen), Ok(b.gen)];
                if b.gen > a.gen {
                    Ok((b, status))
                } else {
                    Ok((a, status))
                }
            },
            (Ok(a), Err(e)) => {
                let status = [Ok(a.gen), Err(e)];
                Ok((a, status))
            },
            (Err(e), Ok(b)) => {
                let status = [Err(e), Ok(b.gen)];
                Ok((b, status))
            },
            (Err(_), Err(_)) => Err(FsError::NoAgMap),
        }
    }

    fn load_copy(dev: &Device, sb: &Superblock, k: u64) -> (r: Result<AgMap, FsError>)
        requires
            dev.wf(),
            k < 2,
        ensures
            match r {
                Ok(m) => map_copy(dev@.bytes, *sb, k as int) == Ok::<Groups, FsError>(m@),
                Err(e) => map_copy(dev@.bytes, *sb, k as int) == Err::<Groups, FsError>(e),
            },
    {
        let step = if k == 0 { 0 } else { sb.agmap_length };
        let off = match sb.agmap_offset.checked_add(step) {
            Some(o) => o,
            None => return Err(FsError::Corrupt),
        };
        let buf = dev.read_vec(off, sb.agmap_length)?;
        match AgMap::parse(&buf) {
            Ok(m) => Ok(m),
            Err(e) => Err(FsError::AgMapCopy(e)),
        }
    }

    pub fn blocksize(&self) -> (r: u32)
        ensures
            r == self.sb.blocksize,
    {
        self.sb.blocksize
    }

    /// The physical offset of a block.
    pub fn resolve(&self, blk: u64) -> (r: Result<u64, FsError>)
        ensures
            r == vol::place(self.map@.entries, self.sb.blocksize, blk),
    {
        match self.map.resolve(blk, self.sb.blocksize) {
            Some(off) => Ok(off),
            None => Err(FsError::Unmapped(blk)),
        }
    }

    pub fn read_block(&self, blk: u64) -> (r: Result<Vec<u8>, FsError>)
        requires
            self.wf(),
        ensures
            match r {
                Ok(b) => vol::rd0(self.vol(), blk) == Ok::<Seq<u8>, FsError>(b@) && b@.len()
                    == self.sb.blocksize,
                Err(e) => vol::rd0(self.vol(), blk) == Err::<Seq<u8>, FsError>(e),
            },
    {
        let off = self.resolve(blk)?;
        self.dev.read_vec(off, self.sb.blocksize as u64)
    }

    pub fn write_block(&mut self, blk: u64, data: &[u8]) -> (r: Result<(), FsError>)
        requires
            old(self).wf(),
        ensures
            final(self).wf(),
            final(self).sb == old(self).sb,
            final(self).map == old(self).map,
            match vol::place(old(self).map@.entries, old(self).sb.blocksize, blk) {
                Ok(off) => (final(self).dev@, r) == device::dev_write(old(self).dev@, off, data@),
                Err(e) => final(self).dev == old(self).dev && r == Err::<(), FsError>(e),
            },
    {
        let off = self.resolve(blk)?;
        self.dev.pwrite(data, off)
    }

    // --- group headers ---------------------------------------------------------

    /// Group 0's header sits at local block 1 (block 0 is the superblock).
    pub fn ag_header_block(ag: u32) -> (r: u32)
        ensures
            r == header_local(ag),
    {
        if ag == 0 {
            1
        } else {
            0
        }
    }

    pub fn read_ag_header(&self, ag: u32) -> (r: Result<AgHeader, FsError>)
        requires
            self.wf(),
        ensures
            r == header_of(self.vol(), Map::empty(), ag),
    {
        let blk = blk_addr(ag, Gofs::ag_header_block(ag));
        let buf = self.read_block(blk)?;
        match AgHeader::parse(&buf) {
            Ok(h) => Ok(h),
            Err(e) => Err(FsError::Header(ag, e)),
        }
    }

    pub fn write_ag_header(&mut self, hdr: &AgHeader) -> (r: Result<(), FsError>)
        requires
            old(self).wf(),
        ensures
            final(self).wf(),
            final(self).sb == old(self).sb,
            final(self).map == old(self).map,
            (final(self).dev@, r) == device::dev_writes(
                old(self).dev@,
                seq![
                    (
                        vol::place(
                            old(self).map@.entries,
                            old(self).sb.blocksize,
                            fmt::addr_of(hdr.ag_num, header_local(hdr.ag_num)),
                        ),
                        header_block(*hdr, old(self).sb.blocksize),
                    ),
                ],
            ),
    {
        let buf = header_buf(hdr, self.sb.blocksize);
        proof {
            reveal_with_fuel(device::dev_writes, 2);
        }
        self.write_block(blk_addr(hdr.ag_num, Gofs::ag_header_block(hdr.ag_num)), &buf)
    }

    // --- superblock and AG map -------------------------------------------------

    /// Write the superblock, and its backup at the last block of group 0's
    /// first segment.
    pub fn write_superblock(&mut self) -> (r: Result<(), FsError>)
        requires
            old(self).wf(),
        ensures
            final(self).wf(),
            final(self).map == old(self).map,
            (final(self).dev@, final(self).sb, r) == sb_write(
                old(self).dev@,
                old(self).sb,
                old(self).map@.entries,
            ),
    {
        if self.sb.gen == u64::MAX {
            return Err(FsError::Corrupt);
        }
        self.sb.gen = self.sb.gen + 1;
        let bytes = self.sb.to_bytes();
        let ghost gs = self.map@.entries;
        let ghost items = sb_writes(self.sb, gs);
        proof {
            reveal_with_fuel(device::dev_writes, 3);
            if items.len() == 2 {
                assert(items.skip(1) =~= seq![items[1]]);
                assert(items.skip(1).skip(1) =~= Seq::empty());
            } else {
                assert(items.skip(1) =~= Seq::empty());
            }
        }
        self.dev.pwrite(&bytes, 0)?;
        match backup_offset(&self.map, self.sb.blocksize) {
            Some(Ok(off)) => self.dev.pwrite(&bytes, off)?,
            Some(Err(e)) => return Err(e),
            None => {},
        }
        Ok(())
    }

    /// Write the AG map under its next generation, over the older copy.
    pub fn write_agmap(&mut self) -> (r: Result<(), FsError>)
        requires
            old(self).wf(),
        ensures
            final(self).wf(),
            final(self).sb == old(self).sb,
            (final(self).dev@, final(self).map@, r) == map_write(
                old(self).dev@,
                old(self).sb,
                old(self).map@,
            ),
    {
        if self.map.gen == u64::MAX {
            return Err(FsError::Corrupt);
        }
        self.map.gen = self.map.gen + 1;
        let step = if self.map.gen % 2 == 0 { 0 } else { self.sb.agmap_length };
        let off = match self.sb.agmap_offset.checked_add(step) {
            Some(o) => o,
            None => return Err(FsError::Corrupt),
        };
        if self.sb.agmap_length < AGMAP_HDR as u64 || self.sb.agmap_length > self.dev.size {
            return Err(FsError::Corrupt);
        }
        assert(self.dev.data.len() == self.dev.data@.len());
        let bytes = match self.map.to_bytes(self.sb.agmap_length as usize) {
            Ok(b) => b,
            Err(e) => return Err(FsError::AgMapCopy(e)),
        };
        self.dev.pwrite(&bytes, off)?;
        self.dev.sync();
        Ok(())
    }

    // --- inode slots -----------------------------------------------------------

    /// The physical offset of an inode slot.
    pub fn inode_phys(&self, ino: u64) -> (r: Result<u64, FsError>)
        requires
            self.wf(),
        ensures
            r == inode_place(self.map@.entries, self.sb.blocksize, self.sb.inodesize, ino),
    {
        let (ag, slot) = blk_split(ino);
        let isz = self.sb.inodesize as u64;
        let bs = self.sb.blocksize as u64;
        assert(slot * isz <= 0xffff_ffff * 0xffff) by (nonlinear_arith)
            requires
                slot <= 0xffff_ffff,
                0 <= isz <= 0xffff,
        ;
        let byte_off = slot as u64 * isz;
        let blk = blk_addr(ag, (byte_off / bs % 0x1_0000_0000) as u32);
        let p = self.resolve(blk)?;
        match p.checked_add(byte_off % bs) {
            Some(o) => Ok(o),
            None => Err(FsError::Corrupt),
        }
    }

    pub fn read_inode(&self, ino: u64) -> (r: Result<Inode, FsError>)
        requires
            self.wf(),
        ensures
            r == inode_of(self.vol(), self.sb.inodesize, ino),
    {
        let mut buf = [0u8; 256];
        let off = self.inode_phys(ino)?;
        self.dev.pread(&mut buf, off)?;
        match Inode::parse(&buf) {
            Ok(i) => Ok(i),
            Err(e) => Err(FsError::BadInode(ino, e)),
        }
    }

    pub fn write_inode(&mut self, ino: u64, inode: &Inode) -> (r: Result<(), FsError>)
        requires
            old(self).wf(),
        ensures
            final(self).wf(),
            final(self).sb == old(self).sb,
            final(self).map == old(self).map,
            match inode_place(
                old(self).map@.entries,
                old(self).sb.blocksize,
                old(self).sb.inodesize,
                ino,
            ) {
                Ok(off) => (final(self).dev@, r) == device::dev_write(
                    old(self).dev@,
                    off,
                    inode::inode_bytes(*inode),
                ),
                Err(e) => final(self).dev == old(self).dev && r == Err::<(), FsError>(e),
            },
    {
        let off = self.inode_phys(ino)?;
        self.dev.pwrite(&inode.to_bytes(), off)
    }
}

} // verus!
