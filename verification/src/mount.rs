//! What a read-only mount shows of a volume.

use crate::dirent::{DirEntry, Dirent};
use crate::fmt::{div_up, DT_DIR};
use crate::fs::Gofs;
use crate::inode::{Inode, Ts};
use vstd::prelude::*;

use crate::dirent;
use crate::fmt;

verus! {

/// The number under which the host asks for the root directory.
pub const MOUNT_ROOT: u64 = 1;

#[derive(Debug, Clone, Copy, PartialEq, Eq, Structural)]
pub enum Kind {
    Directory,
    Symlink,
    File,
}

/// What `stat` shows of an inode.
#[derive(Debug, Clone, Copy, PartialEq, Eq, Structural)]
pub struct Attr {
    pub ino: u64,
    pub size: u64,
    /// In units of 512 bytes.
    pub blocks: u64,
    pub atime: Ts,
    pub mtime: Ts,
    pub ctime: Ts,
    pub crtime: Ts,
    pub kind: Kind,
    pub perm: u16,
    pub nlink: u32,
    pub uid: u32,
    pub gid: u32,
    pub blksize: u32,
}

/// The type that the upper bits of `mode` say; anything unknown is a file.
pub open spec fn kind_of(mode: u16) -> Kind {
    if mode / 0x1000 == 4 {
        Kind::Directory
    } else if mode / 0x1000 == 10 {
        Kind::Symlink
    } else {
        Kind::File
    }
}

/// Times before the epoch show as the epoch.
pub open spec fn shown_time(t: Ts) -> Ts {
    if t.sec >= 0 {
        t
    } else {
        Ts { sec: 0, nsec: 0 }
    }
}

/// What `stat` shows of inode `i` under the number `ino`.
pub open spec fn attr_of(i: Inode, ino: u64, bs: u32) -> Attr {
    Attr {
        ino,
        size: i.size,
        blocks: fmt::ceil_div(i.size as int, 512) as u64,
        atime: shown_time(i.atime),
        mtime: shown_time(i.mtime),
        ctime: shown_time(i.ctime),
        crtime: shown_time(i.btime),
        kind: kind_of(i.mode),
        perm: i.mode % 0x1000,
        nlink: i.nlink,
        uid: i.uid,
        gid: i.gid,
        blksize: bs,
    }
}

/// What is shown of an inode, field by field: owner, group, link count and size are the
/// inode's own, the permissions are the low twelve bits of its mode and the type its high
/// four, the size is also shown in units of 512 bytes, rounded up, and every time is the
/// inode's, or the epoch where that is earlier.
pub proof fn law_attributes_are_those_of_the_inode(i: Inode, ino: u64, bs: u32)
    ensures
        ({
            let r = attr_of(i, ino, bs);
            &&& r.ino == ino
            &&& r.size == i.size
            &&& r.uid == i.uid
            &&& r.gid == i.gid
            &&& r.nlink == i.nlink
            &&& r.blksize == bs
            &&& r.perm < 0x1000
            &&& (i.mode - r.perm) % 0x1000 == 0
            &&& i.size <= r.blocks * 512 < i.size + 512
            &&& (r.kind == Kind::Directory) == (0x4000 <= i.mode < 0x5000)
            &&& (r.kind == Kind::Symlink) == (0xa000 <= i.mode < 0xb000)
            &&& i.atime.sec >= 0 ==> r.atime == i.atime
            &&& i.mtime.sec >= 0 ==> r.mtime == i.mtime
            &&& i.ctime.sec >= 0 ==> r.ctime == i.ctime
            &&& i.btime.sec >= 0 ==> r.crtime == i.btime
            &&& i.atime.sec < 0 ==> r.atime.sec == 0 && r.atime.nsec == 0
            &&& i.mtime.sec < 0 ==> r.mtime.sec == 0 && r.mtime.nsec == 0
            &&& i.ctime.sec < 0 ==> r.ctime.sec == 0 && r.ctime.nsec == 0
            &&& i.btime.sec < 0 ==> r.crtime.sec == 0 && r.crtime.nsec == 0
        }),
{
    fmt::lemma_ceil_div(i.size as int, 512);
}

/// One line of a directory listing.
#[derive(Debug, Clone)]
pub struct Shown {
    pub ino: u64,
    pub kind: Kind,
    pub name: String,
}

impl View for Shown {
    type V = (u64, Kind, Seq<char>);

    open spec fn view(&self) -> (u64, Kind, Seq<char>) {
        (self.ino, self.kind, self.name@)
    }
}

pub open spec fn shown_entry(e: Dirent) -> (u64, Kind, Seq<char>) {
    (
        e.ino,
        if e.ftype == DT_DIR {
            Kind::Directory
        } else {
            Kind::File
        },
        e.name,
    )
}

/// A listing: the directory itself, its parent, then the entries.
pub open spec fn listing_of(ino: u64, es: Seq<Dirent>) -> Seq<(u64, Kind, Seq<char>)> {
    seq![(ino, Kind::Directory, "."@), (MOUNT_ROOT, Kind::Directory, ".."@)] + es.map_values(
        |e: Dirent| shown_entry(e),
    )
}

/// The part of `len` bytes that a read of `size` bytes at `offset` gives.
pub open spec fn window_of(len: int, offset: i64, size: u32) -> (int, int) {
    let start = if offset < 0 || offset > len {
        len
    } else {
        offset as int
    };
    (
        start,
        if start + size > len {
            len
        } else {
            start + size
        },
    )
}

/// A listing shows the directory and its parent, and then every entry in order, with its
/// inode number and name, as a directory where it is one.
pub proof fn law_listing_shows_every_entry(ino: u64, es: Seq<Dirent>)
    ensures
        ({
            let r = listing_of(ino, es);
            &&& r.len() == es.len() + 2
            &&& r[0] == (ino, Kind::Directory, "."@)
            &&& r[1] == (1u64, Kind::Directory, ".."@)
            &&& forall|k: int|
                0 <= k < es.len() ==> {
                    let s = #[trigger] r[k + 2];
                    &&& s.0 == es[k].ino
                    &&& s.2 == es[k].name
                    &&& (s.1 == Kind::Directory) == (es[k].ftype == DT_DIR)
                    &&& s.1 != Kind::Symlink
                }
        }),
{
}

/// A read gives the bytes from its offset on, as many as were asked for or are there;
/// past the end, or before the start, it gives none.
pub proof fn law_window_is_what_was_asked(len: int, offset: i64, size: u32)
    requires
        0 <= len,
    ensures
        ({
            let (a, b) = window_of(len, offset, size);
            &&& 0 <= a <= b <= len
            &&& 0 <= offset < len ==> a == offset
            &&& 0 <= offset && offset + size <= len ==> b - a == size
            &&& 0 <= offset <= len < offset + size ==> b == len
            &&& (offset < 0 || offset >= len) ==> a == b
        }),
{
}

fn show_time(t: Ts) -> (r: Ts)
    ensures
        r == shown_time(t),
{
    if t.sec >= 0 {
        t
    } else {
        Ts { sec: 0, nsec: 0 }
    }
}

impl Gofs {
    /// The inode number behind the one that the host uses.
    pub fn real_ino(&self, ino: u64) -> (r: u64)
        ensures
            r == if ino == MOUNT_ROOT {
                self.sb.root_ino
            } else {
                ino
            },
            ino == 1 ==> r == self.sb.root_ino,
    {
        if ino == MOUNT_ROOT {
            self.sb.root_ino
        } else {
            ino
        }
    }

    /// The attributes of an inode under the number that the host uses.
    pub fn attr(&self, ino: u64, i: &Inode) -> (r: Attr)
        ensures
            r == attr_of(*i, ino, self.sb.blocksize),
            r.ino == ino,
            r.size == i.size,
            r.uid == i.uid,
            r.gid == i.gid,
            r.nlink == i.nlink,
            r.blksize == self.sb.blocksize,
            r.perm < 0x1000 && (i.mode - r.perm) % 0x1000 == 0,
            r.blocks * 512 >= i.size && r.blocks * 512 < i.size + 512,
            (r.kind == Kind::Directory) == (0x4000 <= i.mode < 0x5000),
            (r.kind == Kind::Symlink) == (0xa000 <= i.mode < 0xb000),
            i.atime.sec >= 0 ==> r.atime == i.atime,
            i.mtime.sec >= 0 ==> r.mtime == i.mtime,
            i.ctime.sec >= 0 ==> r.ctime == i.ctime,
            i.btime.sec >= 0 ==> r.crtime == i.btime,
            i.atime.sec < 0 ==> r.atime.sec == 0 && r.atime.nsec == 0,
            i.mtime.sec < 0 ==> r.mtime.sec == 0 && r.mtime.nsec == 0,
            i.ctime.sec < 0 ==> r.ctime.sec == 0 && r.ctime.nsec == 0,
            i.btime.sec < 0 ==> r.crtime.sec == 0 && r.crtime.nsec == 0,
    {
        proof {
            law_attributes_are_those_of_the_inode(*i, ino, self.sb.blocksize);
        }
        let top = i.mode / 0x1000;
        Attr {
            ino,
            size: i.size,
            blocks: div_up(i.size, 512),
            atime: show_time(i.atime),
            mtime: show_time(i.mtime),
            ctime: show_time(i.ctime),
            crtime: show_time(i.btime),
            kind: if top == 4 {
                Kind::Directory
            } else if top == 10 {
                Kind::Symlink
            } else {
                Kind::File
            },
            perm: i.mode % 0x1000,
            nlink: i.nlink,
            uid: i.uid,
            gid: i.gid,
            blksize: self.sb.blocksize,
        }
    }
}

/// The range of `len` bytes that a read of `size` bytes at `offset` gives.
pub fn read_window(len: usize, offset: i64, size: u32) -> (r: (usize, usize))
    ensures
        (r.0 as int, r.1 as int) == window_of(len as int, offset, size),
        r.0 <= r.1 <= len,
        0 <= offset < len ==> r.0 == offset,
        0 <= offset && offset + size <= len ==> r.1 - r.0 == size,
        0 <= offset <= len < offset + size ==> r.1 == len,
        offset < 0 || offset >= len ==> r.0 == r.1,
{
    let start = if offset < 0 || offset as u64 > len as u64 { len } else { offset as usize };
    let end = if len - start < size as usize { len } else { start + size as usize };
    (start, end)
}

/// The listing of a directory with these entries.
pub fn listing(ino: u64, entries: &Vec<DirEntry>) -> (r: Vec<Shown>)
    ensures
        r@.map_values(|s: Shown| s@) == listing_of(ino, dirent::dirents(entries@)),
        r@.len() == entries@.len() + 2,
        r@[0]@ == (ino, Kind::Directory, "."@),
        r@[1]@ == (MOUNT_ROOT, Kind::Directory, ".."@),
        forall|k: int|
            0 <= k < entries@.len() ==> {
                let s = #[trigger] r@[k + 2];
                &&& s.ino == entries@[k].ino
                &&& s.name@ == entries@[k].name@
                &&& (s.kind == Kind::Directory) == (entries@[k].ftype == DT_DIR)
                &&& s.kind != Kind::Symlink
            },
{
    let ghost es = dirent::dirents(entries@);
    let ghost want = listing_of(ino, es);
    let mut out: Vec<Shown> = Vec::new();
    out.push(Shown { ino, kind: Kind::Directory, name: ".".to_owned() });
    out.push(Shown { ino: MOUNT_ROOT, kind: Kind::Directory, name: "..".to_owned() });
    let mut k: usize = 0;
    while k < entries.len()
        invariant
            k <= entries@.len(),
            es == dirent::dirents(entries@),
            es.len() == entries@.len(),
            want == listing_of(ino, es),
            out@.map_values(|s: Shown| s@) =~= want.take(k + 2),
        decreases entries@.len() - k,
    {
        let e = &entries[k];
        assert(es[k as int] == e@);
        let kind = if e.ftype == DT_DIR { Kind::Directory } else { Kind::File };
        let s = Shown { ino: e.ino, kind, name: e.name.as_str().to_owned() };
        let ghost before = out@.map_values(|s: Shown| s@);
        out.push(s);
        proof {
            assert(s@ == shown_entry(es[k as int]));
            assert(want[k + 2] == s@);
            assert(out@.map_values(|s: Shown| s@) =~= before.push(s@));
            assert(want.take(k + 3) =~= want.take(k + 2).push(want[k + 2]));
        }
        k = k + 1;
    }
    assert(want.take(entries@.len() as int + 2) =~= want);
    proof {
        law_listing_shows_every_entry(ino, es);
        let shown = out@.map_values(|s: Shown| s@);
        assert(shown[0] == out@[0]@ && shown[1] == out@[1]@);
        assert forall|k: int| 0 <= k < entries@.len() implies {
            let s = #[trigger] out@[k + 2];
            &&& s.ino == entries@[k].ino
            &&& s.name@ == entries@[k].name@
            &&& (s.kind == Kind::Directory) == (entries@[k].ftype == DT_DIR)
            &&& s.kind != Kind::Symlink
        } by {
            assert(shown[k + 2] == out@[k + 2]@);
            assert(es[k] == entries@[k]@);
            assert(want[k + 2].0 == es[k].ino);
        }
    }
    out
}

} // verus!
