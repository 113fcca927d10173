# gofs

A verified implementation of the 5FS volume format: the on-disk structures,
block allocation, extent trees, hashed directories, the metadata journal,
making, opening, resizing and checking volumes.

- `src/` is the library. Every function carries a contract that Verus proves;
  each states its result as a function of the bytes of the volume.
- `tests/` runs the library on concrete volumes.
- `app/` holds the command line tools (`mkfs`, `fsck`, `debugfs`, `mount`): file
  access, output and FUSE.

## How a volume is modelled

A `Device` is the image in memory together with the ordered list of writes,
syncs and length changes made to it. The tools replay that list on the file.
Nothing orders the writes between two syncs, so a crash can leave any of those
after the last sync behind. A volume is a device, its superblock and its map of
allocation groups.

On a mounted volume metadata changes are gathered in a transaction, written to
the journal, synced, and only then written in place. Making a volume, importing
a file and resizing (adding, growing, moving and retiring allocation groups)
write in place, without the journal.

## Where things are

| Modules | What they hold |
| --- | --- |
| `fmt`, `superblock`, `header`, `agmap`, `inode`, `dirent`, `bucket`, `treenode`, `record`, `roottable`, `utf16` | encodings, with round-trip laws |
| `device`, `vol`, `fs`, `opening`, `txn`, `journal` | reading and writing volumes, transactions, replay |
| `allocator`, `mapping`, `extent`, `truncate` | space and file blocks |
| `dir`, `import` | directories and file contents |
| `mkfs`, `resize`, `fsck`, `scan`, `mount`, `args` | what the tools do |
| `tables`, `grants`, `let_go`, `spares`, `frees`, `new_tables`, `inode_slots`, `dir_model`, `dir_merge`, `dir_growth`, `dir_convert`, `dir_counts`, `tree_growth`, `tree_turn`, `tree_cut`, `tree_spared`, `mkfs_clean`, `import_keeps`, `*_laws` | properties that span functions |

What is taken on trust is marked where it stands: the checksum and hash of the
`crc32c` and `siphasher` crates, random identifiers from `uuid`, and the UTF-16
conversions and the clock of the standard library.
