//! What can go wrong with a volume.

use crate::fmt::FmtError;
use vstd::prelude::*;

verus! {

#[derive(Debug, Clone, Copy, PartialEq, Eq, Structural)]
pub enum FsError {
    // --- volume and device
    /// The superblock does not parse.
    Super(FmtError),
    /// Feature flags that forbid access.
    Incompat(u64),
    /// Feature flags that forbid writing.
    RoCompat(u64),
    /// Neither AG map copy is valid.
    NoAgMap,
    /// An AG map copy does not parse, or the map does not fit its area.
    AgMapCopy(FmtError),
    /// The block address is not mapped.
    Unmapped(u64),
    /// The range lies outside the device.
    Io { offset: u64, len: u64 },
    /// The device is not writable.
    ReadOnly,
    /// The header of this group does not parse.
    Header(u32, FmtError),
    /// This inode does not parse.
    BadInode(u64, FmtError),
    /// A structure cannot be encoded.
    Encode(FmtError),
    /// A stored value points outside the structure it belongs to, or a counter
    /// does not cover what is taken from it.
    Corrupt,
    // --- allocation
    /// Not an allocator table block.
    NotTable { ag: u32, local: u32 },
    TableChecksum { ag: u32, local: u32 },
    /// No free cell for a table arena.
    NoArena(u32),
    /// No run of that many free cells.
    NoRoom { ag: u32, cells: u64 },
    OutOfSpace(u32),
    /// A free that starts inside a fully used level-0 cell.
    MisalignedCell,
    /// A free that starts inside a fully used level-1 cell.
    MisalignedSubcell,
    NotAllocated { ag: u32, local: u32 },
    /// A free in a cell that is neither used nor refined.
    CellState { ag: u32, cell: u64, state: u8 },
    SubcellState(u8),
    NoInodeSlot,
    // --- mapping
    /// Not an extent tree node.
    NotNode(u64),
    NodeChecksum(u64),
    ChildState(u8),
    /// The inode format has no block mapping.
    NoMapping(u8),
    /// A level-0 child cannot be refined.
    LevelZero,
    HoleAfterEnsure(u64),
    CannotFree(u8),
    CannotTruncate(u8),
    /// Past what an extent tree can map.
    FileTooBig,
    FileFormat(u8),
    // --- directories
    NotADirectory,
    DirFormat(u8),
    DirHole(u64),
    DirHeaderMagic,
    DirHeaderChecksum,
    /// The bucket table exceeds the header block.
    DirTableOverflow,
    BucketMagic(u32),
    BucketChecksum(u32),
    BucketOverflow,
    /// The directory exceeds its maximum depth.
    MaxDepth,
    Exists,
    /// Longer than 255 UTF-16 code units.
    NameTooLong,
    NotFound,
    // --- journal
    JournalIndex(u64),
    TxnTooLarge(u64),
    TxnOverJournal,
    // --- making and resizing
    MkfsBlocksize,
    MkfsInodesize,
    MkfsSlots,
    DeviceTooSmall(u64),
    NoRoomForJournal,
    Unaligned,
    AgTooSmall(u32),
    Overlap,
    NotPastEnd { size: u64, end: u64 },
    NoSuchAg(u32),
    NotPresent(u32),
    Immovable(u32),
    PastEnd,
    RetireFirst,
    StillAllocated { ag: u32, blocks: u32 },
    ShrinkFirst,
    NoGap { ag: u32, limit: u64 },
}

} // verus!
