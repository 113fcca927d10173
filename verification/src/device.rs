//! The block device: its contents, and the ordered list of operations that
//! the host has yet to carry out on the medium.

use crate::error::FsError;
use crate::fmt::{put_bytes, sub_vec};
use vstd::prelude::*;

use crate::fmt;

verus! {

/// An operation on the medium. Nothing orders two writes between which no
/// `Sync` stands.
#[derive(Debug, Clone)]
pub enum DevOp {
    Write { offset: u64, data: Vec<u8> },
    Sync,
    SetLen(u64),
}

/// What a `DevOp` says.
#[verifier::ext_equal]
pub enum Io {
    Write { offset: u64, data: Seq<u8> },
    Sync,
    SetLen(u64),
}

impl View for DevOp {
    type V = Io;

    open spec fn view(&self) -> Io {
        match *self {
            DevOp::Write { offset, data } => Io::Write { offset, data: data@ },
            DevOp::Sync => Io::Sync,
            DevOp::SetLen(n) => Io::SetLen(n),
        }
    }
}

pub struct Device {
    /// Contents.
    pub data: Vec<u8>,
    /// Size in bytes.
    pub size: u64,
    pub writable: bool,
    /// Operations since the log was last taken, oldest first.
    pub log: Vec<DevOp>,
}

/// The state of a device.
#[verifier::ext_equal]
pub struct Dev {
    pub bytes: Seq<u8>,
    pub log: Seq<Io>,
    pub writable: bool,
}

impl View for Device {
    type V = Dev;

    open spec fn view(&self) -> Dev {
        Dev {
            bytes: self.data@,
            log: self.log@.map_values(|o: DevOp| o@),
            writable: self.writable,
        }
    }
}

/// The contents after one operation.
pub open spec fn applied(bytes: Seq<u8>, op: Io) -> Seq<u8> {
    match op {
        Io::Write { offset, data } => fmt::splice(bytes, offset as int, data),
        Io::Sync => bytes,
        Io::SetLen(n) => Seq::new(n as nat, |i: int| if i < bytes.len() { bytes[i] } else { 0u8 }),
    }
}

/// The bytes at `offset`, or the error for a range outside the device.
pub open spec fn dev_read(bytes: Seq<u8>, offset: u64, len: int) -> Result<Seq<u8>, FsError> {
    if offset + len <= bytes.len() {
        Ok(bytes.subrange(offset as int, offset + len))
    } else {
        Err(FsError::Io { offset, len: len as u64 })
    }
}

/// What a write does: the new state, or the error with the state unchanged.
pub open spec fn dev_write(d: Dev, offset: u64, data: Seq<u8>) -> (Dev, Result<(), FsError>) {
    if !d.writable {
        (d, Err(FsError::ReadOnly))
    } else if offset + data.len() > d.bytes.len() {
        (d, Err(FsError::Io { offset, len: data.len() as u64 }))
    } else {
        (
            Dev {
                bytes: fmt::splice(d.bytes, offset as int, data),
                log: d.log.push(Io::Write { offset, data }),
                ..d
            },
            Ok(()),
        )
    }
}

/// A barrier: everything written so far reaches the medium first.
pub open spec fn dev_sync(d: Dev) -> Dev {
    Dev { log: d.log.push(Io::Sync), ..d }
}

/// Writes in order, up to the first that has no place or does not fit.
pub open spec fn dev_writes(d: Dev, items: Seq<(Result<u64, FsError>, Seq<u8>)>) -> (
    Dev,
    Result<(), FsError>,
)
    decreases items.len(),
{
    if items.len() == 0 {
        (d, Ok(()))
    } else {
        match items[0].0 {
            Err(e) => (d, Err(e)),
            Ok(offset) => {
                let (d1, r) = dev_write(d, offset, items[0].1);
                match r {
                    Err(e) => (d1, Err(e)),
                    Ok(_) => dev_writes(d1, items.skip(1)),
                }
            },
        }
    }
}

impl Device {
    /// `size` is the length of the contents.
    pub open spec fn wf(&self) -> bool {
        self.size == self.data@.len()
    }

    /// A device that holds `data`.
    pub fn open(data: Vec<u8>, writable: bool) -> (r: Self)
        ensures
            r.wf(),
            r@ == (Dev { bytes: data@, log: Seq::empty(), writable }),
    {
        let size = data.len() as u64;
        let r = Device { data, size, writable, log: Vec::new() };
        assert(r@.log =~= Seq::<Io>::empty());
        r
    }

    /// A zeroed, writable device of `size` bytes.
    pub fn create(size: usize) -> (r: Self)
        ensures
            r.wf(),
            r@ == (Dev { bytes: fmt::zeros(size as nat), log: Seq::empty(), writable: true }),
    {
        Device::open(fmt::zero_vec(size), true)
    }

    /// Fill `buf` with the bytes from `offset` on.
    pub fn pread(&self, buf: &mut [u8], offset: u64) -> (r: Result<(), FsError>)
        requires
            self.wf(),
        ensures
            match dev_read(self@.bytes, offset, old(buf)@.len() as int) {
                Ok(s) => r is Ok && final(buf)@ == s,
                Err(e) => r == Err::<(), FsError>(e) && final(buf)@ == old(buf)@,
            },
    {
        let n = buf.len();
        if offset > self.size || self.size - offset < n as u64 {
            return Err(FsError::Io { offset, len: n as u64 });
        }
        assert(self.data.len() == self.data@.len());
        let o = offset as usize;
        put_bytes(buf, 0, &self.data[o..o + n]);
        assert(buf@ =~= self.data@.subrange(o as int, o + n));
        Ok(())
    }

    /// The `n` bytes from `offset` on.
    pub fn read_vec(&self, offset: u64, n: u64) -> (r: Result<Vec<u8>, FsError>)
        requires
            self.wf(),
        ensures
            match r {
                Ok(v) => dev_read(self@.bytes, offset, n as int) == Ok::<Seq<u8>, FsError>(v@),
                Err(e) => dev_read(self@.bytes, offset, n as int) == Err::<Seq<u8>, FsError>(e),
            },
    {
        if offset > self.size || self.size - offset < n {
            return Err(FsError::Io { offset, len: n });
        }
        assert(self.data.len() == self.data@.len());
        let o = offset as usize;
        Ok(sub_vec(&self.data, o, o + n as usize))
    }

    /// Write `buf` at `offset`.
    pub fn pwrite(&mut self, buf: &[u8], offset: u64) -> (r: Result<(), FsError>)
        requires
            old(self).wf(),
        ensures
            final(self).wf(),
            (final(self)@, r) == dev_write(old(self)@, offset, buf@),
    {
        let n = buf.len();
        if !self.writable {
            return Err(FsError::ReadOnly);
        }
        if offset > self.size || self.size - offset < n as u64 {
            return Err(FsError::Io { offset, len: n as u64 });
        }
        assert(self.data.len() == self.data@.len());
        let o = offset as usize;
        put_bytes(&mut self.data, o, buf);
        let data = vstd::slice::slice_to_vec(buf);
        self.log.push(DevOp::Write { offset, data });
        proof {
            let log0 = old(self)@.log;
            assert(self@.log =~= log0.push(Io::Write { offset, data: buf@ }));
        }
        Ok(())
    }

    /// Barrier: what was written before reaches the medium before what is
    /// written after.
    pub fn sync(&mut self)
        ensures
            final(self)@ == dev_sync(old(self)@),
            final(self).size == old(self).size,
    {
        self.log.push(DevOp::Sync);
        assert(self@.log =~= old(self)@.log.push(Io::Sync));
    }

    /// Grow (with zeros) or cut the device.
    pub fn set_len(&mut self, size: usize)
        ensures
            final(self).wf(),
            final(self)@ == (Dev {
                bytes: applied(old(self)@.bytes, Io::SetLen(size as u64)),
                log: old(self)@.log.push(Io::SetLen(size as u64)),
                writable: old(self).writable,
            }),
    {
        self.data.resize(size, 0u8);
        self.size = size as u64;
        self.log.push(DevOp::SetLen(size as u64));
        proof {
            assert(self@.log =~= old(self)@.log.push(Io::SetLen(size as u64)));
            assert(self@.bytes =~= applied(old(self)@.bytes, Io::SetLen(size as u64)));
        }
    }

    /// Take the logged operations, oldest first.
    pub fn take_log(&mut self) -> (r: Vec<DevOp>)
        ensures
            r@.map_values(|o: DevOp| o@) == old(self)@.log,
            final(self)@ == (Dev { log: Seq::empty(), ..old(self)@ }),
            final(self).size == old(self).size,
    {
        let mut r: Vec<DevOp> = Vec::new();
        std::mem::swap(&mut r, &mut self.log);
        assert(self@.log =~= Seq::<Io>::empty());
        r
    }
}

} // verus!
