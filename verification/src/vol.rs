//! The volume as its blocks: where a block address leads, what is read there
//! and through a transaction.

use crate::agmap::Group;
use crate::error::FsError;
use vstd::prelude::*;

use crate::agmap;
use crate::device;

verus! {

/// What block reads depend on.
#[verifier::ext_equal]
pub struct Vol {
    /// Device contents.
    pub bytes: Seq<u8>,
    pub groups: Seq<Group>,
    /// Block size.
    pub bs: u32,
}

/// The physical offset of a block.
pub open spec fn place(gs: Seq<Group>, bs: u32, blk: u64) -> Result<u64, FsError> {
    match agmap::resolve_in(gs, blk, bs) {
        Some(off) => Ok(off),
        None => Err(FsError::Unmapped(blk)),
    }
}

/// The contents of a block on the device.
pub open spec fn rd0(v: Vol, blk: u64) -> Result<Seq<u8>, FsError> {
    match place(v.groups, v.bs, blk) {
        Ok(off) => device::dev_read(v.bytes, off, v.bs as int),
        Err(e) => Err(e),
    }
}

/// The contents of a block as a transaction sees it: what the transaction
/// wrote, else what the device holds.
pub open spec fn rd(v: Vol, t: Map<u64, Seq<u8>>, blk: u64) -> Result<Seq<u8>, FsError> {
    if t.contains_key(blk) {
        Ok(t[blk])
    } else {
        rd0(v, blk)
    }
}

/// Every block that the transaction holds is one block long.
pub open spec fn txn_ok(t: Map<u64, Seq<u8>>, bs: u32) -> bool {
    forall|blk: u64| #[trigger] t.contains_key(blk) ==> t[blk].len() == bs
}

/// A block that can be read is one block long.
pub proof fn lemma_rd_len(v: Vol, t: Map<u64, Seq<u8>>, blk: u64)
    requires
        txn_ok(t, v.bs),
    ensures
        rd(v, t, blk) matches Ok(b) ==> b.len() == v.bs,
        rd0(v, blk) matches Ok(b) ==> b.len() == v.bs,
{
}

} // verus!
