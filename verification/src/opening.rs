//! Opening a volume: superblock or its backup, AG map, journal replay, and
//! repair of the superblock copies.

use crate::agmap::{Group, Groups};
use crate::device::{Dev, Device};
use crate::error::FsError;
use crate::fmt::SB_SIZE;
use crate::fs::Gofs;
use crate::superblock::Superblock;
use vstd::prelude::*;

use crate::device;
use crate::fs;
use crate::journal;
use crate::superblock;

verus! {

/// The superblock that stands at `off`.
pub open spec fn super_at(bytes: Seq<u8>, off: u64) -> Result<Superblock, FsError> {
    match device::dev_read(bytes, off, SB_SIZE as int) {
        Err(e) => Err(e),
        Ok(b) => match superblock::sb_parse(b) {
            Err(e) => Err(FsError::Super(e)),
            Ok(sb) => Ok(sb),
        },
    }
}

/// Whether a backup superblock stands at `off`: one whose own AG map says that
/// its backup belongs there.
pub open spec fn is_backup(bytes: Seq<u8>, off: u64) -> bool {
    match super_at(bytes, off) {
        Err(_) => false,
        Ok(sb) => match fs::best_map(bytes, sb) {
            None => false,
            Some(m) => fs::backup_place(m.entries, sb.blocksize) == Some(
                Ok::<u64, FsError>(off),
            ),
        },
    }
}

/// The last backup superblock in the first `n` sectors of 512 bytes.
pub open spec fn last_backup(bytes: Seq<u8>, n: int) -> Option<Superblock>
    decreases n,
{
    if n <= 0 {
        None
    } else if is_backup(bytes, ((n - 1) * 512) as u64) {
        Some(super_at(bytes, ((n - 1) * 512) as u64)->Ok_0)
    } else {
        last_backup(bytes, n - 1)
    }
}

/// The superblock of the volume: block 0, else the backup.
pub open spec fn found_super(bytes: Seq<u8>) -> Result<Superblock, FsError> {
    match super_at(bytes, 0) {
        Ok(sb) => Ok(sb),
        Err(e) => match last_backup(bytes, bytes.len() as int / 512) {
            Some(sb) => Ok(sb),
            None => Err(e),
        },
    }
}

/// Whether the copies of the superblock differ although both have a place.
pub open spec fn copies_differ(bytes: Seq<u8>, gs: Seq<Group>, bs: u32) -> bool {
    match fs::backup_place(gs, bs) {
        Some(Ok(off)) => device::dev_read(bytes, 0, SB_SIZE as int) != device::dev_read(
            bytes,
            off,
            SB_SIZE as int,
        ),
        _ => false,
    }
}

/// Writing both copies of the superblock where they differ.
pub open spec fn healed(d: Dev, sb: Superblock, m: Groups) -> Result<
    (Dev, Superblock, Groups),
    FsError,
> {
    if copies_differ(d.bytes, m.entries, sb.blocksize) {
        let (d1, sb1, r) = fs::sb_write(d, sb, m.entries);
        match r {
            Err(e) => Err(e),
            Ok(_) => Ok((device::dev_sync(d1), sb1, m)),
        }
    } else {
        Ok((d, sb, m))
    }
}

/// Opening a volume: the device, superblock and AG map. One that may be
/// written is brought up to date from its journal.
pub open spec fn opened(d: Dev) -> Result<(Dev, Superblock, Groups), FsError> {
    match found_super(d.bytes) {
        Err(e) => Err(e),
        Ok(sb) => if sb.incompat != 0 {
            Err(FsError::Incompat(sb.incompat))
        } else if d.writable && sb.ro_compat != 0 {
            Err(FsError::RoCompat(sb.ro_compat))
        } else {
            match fs::best_map(d.bytes, sb) {
                None => Err(FsError::NoAgMap),
                Some(m) => if !d.writable {
                    Ok((d, sb, m))
                } else {
                    let (d1, sb1, r) = journal::replay_all(d, sb, m.entries);
                    match r {
                        Err(e) => Err(e),
                        Ok(_) => healed(d1, sb1, m),
                    }
                },
            }
        },
    }
}

/// Read the superblock at `off`.
fn read_super(dev: &Device, off: u64) -> (r: Result<Superblock, FsError>)
    requires
        dev.wf(),
    ensures
        r == super_at(dev@.bytes, off),
        r matches Ok(sb) ==> superblock::is_pow2(sb.blocksize as int) && sb.blocksize >= 512,
{
    let mut buf = [0u8; 512];
    dev.pread(&mut buf, off)?;
    match Superblock::parse(&buf) {
        Ok(sb) => Ok(sb),
        Err(e) => Err(FsError::Super(e)),
    }
}

/// Whether the superblock `sb`, read at `off`, is a backup.
fn confirm_backup(dev: &Device, sb: &Superblock, off: u64) -> (r: bool)
    requires
        dev.wf(),
        super_at(dev@.bytes, off) == Ok::<Superblock, FsError>(*sb),
    ensures
        r == is_backup(dev@.bytes, off),
{
    let map = match Gofs::load_agmap(dev, sb) {
        Ok((m, _)) => m,
        Err(_) => return false,
    };
    match fs::backup_offset(&map, sb.blocksize) {
        Some(Ok(o)) => o == off,
        _ => false,
    }
}

/// Search for a backup superblock from the end of the device on.
fn find_backup(dev: &Device) -> (r: Option<Superblock>)
    requires
        dev.wf(),
    ensures
        r == last_backup(dev@.bytes, dev@.bytes.len() as int / 512),
        r matches Some(sb) ==> superblock::is_pow2(sb.blocksize as int) && sb.blocksize >= 512,
{
    let ghost bytes = dev@.bytes;
    let mut n = dev.size / 512;
    while n > 0
        invariant
            dev.wf(),
            bytes == dev@.bytes,
            n * 512 <= dev.size,
            last_backup(bytes, bytes.len() as int / 512) == last_backup(bytes, n as int),
        decreases n,
    {
        let off = (n - 1) * 512;
        match read_super(dev, off) {
            Ok(sb) => {
                if confirm_backup(dev, &sb, off) {
                    return Some(sb);
                }
            },
            Err(_) => {},
        }
        n = n - 1;
    }
    None
}

impl Gofs {
    /// Whether the copies of the superblock differ.
    fn supers_differ(&self) -> (r: bool)
        requires
            self.wf(),
        ensures
            r == copies_differ(self.dev@.bytes, self.map@.entries, self.sb.blocksize),
    {
        let off = match fs::backup_offset(&self.map, self.sb.blocksize) {
            Some(Ok(o)) => o,
            _ => return false,
        };
        match (self.dev.read_vec(0, SB_SIZE as u64), self.dev.read_vec(off, SB_SIZE as u64)) {
            (Ok(a), Ok(b)) => {
                let mut i: usize = 0;
                while i < SB_SIZE
                    invariant
                        i <= SB_SIZE,
                        a@.len() == SB_SIZE,
                        b@.len() == SB_SIZE,
                        forall|k: int| 0 <= k < i ==> a@[k] == b@[k],
                        copies_differ(self.dev@.bytes, self.map@.entries, self.sb.blocksize) == (
                        a@ != b@),
                    decreases SB_SIZE - i,
                {
                    if a[i] != b[i] {
                        assert(a@[i as int] != b@[i as int]);
                        return true;
                    }
                    i = i + 1;
                }
                assert(a@ =~= b@);
                false
            },
            (Err(a), Err(b)) => a != b,
            _ => true,
        }
    }

    /// Open a volume. Where the superblock is damaged its backup is used; a
    /// volume that may be written is brought up to date from its journal, and
    /// the copies of its superblock are made equal.
    pub fn open(dev: Device) -> (r: Result<Self, FsError>)
        requires
            dev.wf(),
        ensures
            match r {
                Ok(fs) => fs.wf() && opened(dev@) == Ok::<(Dev, Superblock, Groups), FsError>(
                    (fs.dev@, fs.sb, fs.map@),
                ),
                Err(e) => opened(dev@) == Err::<(Dev, Superblock, Groups), FsError>(e),
            },
    {
        let sb = match read_super(&dev, 0) {
            Ok(sb) => sb,
            Err(e) => match find_backup(&dev) {
                Some(sb) => sb,
                None => return Err(e),
            },
        };
        if sb.incompat != 0 {
            return Err(FsError::Incompat(sb.incompat));
        }
        if dev.writable && sb.ro_compat != 0 {
            return Err(FsError::RoCompat(sb.ro_compat));
        }
        let (map, _status) = Gofs::load_agmap(&dev, &sb)?;
        let mut fs = Gofs { dev, sb, map };
        if fs.dev.writable {
            let _n = fs.replay()?;
            if fs.supers_differ() {
                fs.write_superblock()?;
                fs.dev.sync();
            }
        }
        Ok(fs)
    }
}

} // verus!
