//! 5FS (GoFS), the 5OS filesystem.

pub mod agmap;
pub mod allocator;
pub mod allocator_laws;
pub mod args;
pub mod barrier_laws;
pub mod block_laws;
pub mod bucket;
pub mod device;
pub mod dir;
pub mod dir_check_laws;
pub mod dir_convert;
pub mod dir_counts;
pub mod dir_growth;
pub mod dir_laws;
pub mod dir_merge;
pub mod dir_model;
pub mod dirent;
pub mod disk_laws;
pub mod entry_laws;
pub mod error;
pub mod extent;
pub mod file_laws;
pub mod fmt;
pub mod free_laws;
pub mod frees;
pub mod fresh_laws;
pub mod fs;
pub mod fsck;
pub mod fsck_laws;
pub mod grants;
pub mod grow_laws;
pub mod header;
pub mod import;
pub mod import_keeps;
pub mod import_laws;
pub mod inode;
pub mod inode_slots;
pub mod journal;
pub mod journal_laws;
pub mod let_go;
pub mod mapping;
pub mod mapping_laws;
pub mod mkfs;
pub mod mkfs_asked;
pub mod mkfs_clean;
pub mod mkfs_laws;
pub mod mount;
pub mod new_tables;
pub mod opening;
pub mod record;
pub mod replay_laws;
pub mod resize;
pub mod resize_laws;
pub mod room_laws;
pub mod roottable;
pub mod scan;
pub mod scan_laws;
pub mod shrink_laws;
pub mod spares;
pub mod superblock;
pub mod tables;
pub mod tally_laws;
pub mod tree_cut;
pub mod tree_growth;
pub mod tree_laws;
pub mod tree_turn;
pub mod tree_spared;
pub mod treenode;
pub mod truncate;
pub mod truncate_laws;
pub mod txn;
pub mod utf16;
pub mod vol;
pub mod volume_laws;
