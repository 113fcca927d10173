//! The allocator's tables as a transaction sees them: the root table of a
//! group, the table blocks and their records.

use crate::error::FsError;
use crate::fmt::{
    blk_addr, csum_matches, get_u16, get_u32, get_u64, magic_is, put_bytes, put_u16, put_u32,
    put_u64, seal, ALLOC_MAGIC,
};
use crate::fs::Gofs;
use crate::header::{rt_geometry, rt_ref_off, AgHeader};
use crate::record::REC_SIZE;
use crate::txn::Txn;
use crate::vol::Vol;
use vstd::prelude::*;

use crate::fmt;
use crate::header;
use crate::vol;

verus! {

// --- root table ---------------------------------------------------------------

/// The block that holds byte `off` of the root table; `None` past the last
/// block number.
pub open spec fn rt_blk(hdr: AgHeader, bs: u32, off: int) -> Option<u64> {
    let local = hdr.alloc_root + off / bs as int;
    if local <= u32::MAX {
        Some(fmt::addr_of(hdr.ag_num, local as u32))
    } else {
        None
    }
}

/// The block that holds byte `off` of the root table, its address and the
/// byte's offset in it.
pub open spec fn rt_at(v: Vol, t: Map<u64, Seq<u8>>, hdr: AgHeader, off: int) -> Result<
    (u64, int, Seq<u8>),
    FsError,
> {
    match rt_blk(hdr, v.bs, off) {
        None => Err(FsError::Corrupt),
        Some(blk) => match vol::rd(v, t, blk) {
            Err(e) => Err(e),
            Ok(b) => Ok((blk, off % v.bs as int, b)),
        },
    }
}

/// Byte `off` of the root table.
pub open spec fn rt_get(v: Vol, t: Map<u64, Seq<u8>>, hdr: AgHeader, off: int) -> Result<
    u8,
    FsError,
> {
    match rt_at(v, t, hdr, off) {
        Err(e) => Err(e),
        Ok((_, o, b)) => Ok(b[o]),
    }
}

/// Replacing byte `off` of the root table.
pub open spec fn rt_put(v: Vol, t: Map<u64, Seq<u8>>, hdr: AgHeader, off: int, x: u8) -> (
    Map<u64, Seq<u8>>,
    Result<(), FsError>,
) {
    match rt_at(v, t, hdr, off) {
        Err(e) => (t, Err(e)),
        Ok((blk, o, b)) => (t.insert(blk, b.update(o, x)), Ok(())),
    }
}

/// Replacing the bytes from `off` on, up to the first that cannot be.
pub open spec fn rt_puts(
    v: Vol,
    t: Map<u64, Seq<u8>>,
    hdr: AgHeader,
    off: int,
    xs: Seq<u8>,
) -> (Map<u64, Seq<u8>>, Result<(), FsError>)
    decreases xs.len(),
{
    if xs.len() == 0 {
        (t, Ok(()))
    } else {
        let (t1, r) = rt_put(v, t, hdr, off, xs[0]);
        match r {
            Err(e) => (t1, Err(e)),
            Ok(_) => rt_puts(v, t1, hdr, off + 1, xs.skip(1)),
        }
    }
}

/// The `n` bytes from `off` on, or the first error.
pub open spec fn rt_gets(v: Vol, t: Map<u64, Seq<u8>>, hdr: AgHeader, off: int, n: int) -> Result<
    Seq<u8>,
    FsError,
>
    decreases n,
{
    if n <= 0 {
        Ok(Seq::empty())
    } else {
        match rt_gets(v, t, hdr, off, n - 1) {
            Err(e) => Err(e),
            Ok(s) => match rt_get(v, t, hdr, off + n - 1) {
                Err(e) => Err(e),
                Ok(x) => Ok(s.push(x)),
            },
        }
    }
}

/// The state of level-0 cell `c`.
pub open spec fn cell_of(v: Vol, t: Map<u64, Seq<u8>>, hdr: AgHeader, c: int) -> Result<
    u8,
    FsError,
> {
    match rt_get(v, t, hdr, c / 4) {
        Err(e) => Err(e),
        Ok(x) => Ok(fmt::quarter(x, c % 4)),
    }
}

/// Setting the state of level-0 cell `c`.
pub open spec fn cell_to(v: Vol, t: Map<u64, Seq<u8>>, hdr: AgHeader, c: int, st: u8) -> (
    Map<u64, Seq<u8>>,
    Result<(), FsError>,
) {
    match rt_at(v, t, hdr, c / 4) {
        Err(e) => (t, Err(e)),
        Ok((blk, o, b)) => (
            t.insert(blk, b.update(o, fmt::with_quarter(b[o], c % 4, st))),
            Ok(()),
        ),
    }
}

/// Setting the states of cells `lo` to `hi`, in order.
pub open spec fn cells_to(
    v: Vol,
    t: Map<u64, Seq<u8>>,
    hdr: AgHeader,
    lo: int,
    hi: int,
    st: u8,
) -> (Map<u64, Seq<u8>>, Result<(), FsError>)
    decreases hi - lo,
{
    if lo >= hi {
        (t, Ok(()))
    } else {
        let (t1, r) = cell_to(v, t, hdr, lo, st);
        match r {
            Err(e) => (t1, Err(e)),
            Ok(_) => cells_to(v, t1, hdr, lo + 1, hi, st),
        }
    }
}

/// Where the reference of cell `c` stands in the root table.
pub open spec fn cell_ref_off(hdr: AgHeader, c: int) -> int {
    header::state_bytes(header::cell_count(hdr.length)) + 6 * c
}

/// The child reference of level-0 cell `c`.
pub open spec fn cell_ref(v: Vol, t: Map<u64, Seq<u8>>, hdr: AgHeader, c: int) -> Result<
    (u32, u16),
    FsError,
> {
    match rt_gets(v, t, hdr, cell_ref_off(hdr, c), 6) {
        Err(e) => Err(e),
        Ok(s) => Ok((fmt::u32_at(s, 0), fmt::u16_at(s, 4))),
    }
}

/// The six bytes of a reference.
pub open spec fn ref_bytes(r: (u32, u16)) -> Seq<u8> {
    fmt::be32(r.0) + fmt::be16(r.1)
}

/// Setting the child reference of level-0 cell `c`.
pub open spec fn cell_ref_to(
    v: Vol,
    t: Map<u64, Seq<u8>>,
    hdr: AgHeader,
    c: int,
    r: (u32, u16),
) -> (Map<u64, Seq<u8>>, Result<(), FsError>) {
    rt_puts(v, t, hdr, cell_ref_off(hdr, c), ref_bytes(r))
}

/// The first cell from `c` on that can be read and is in state `st`.
pub open spec fn first_cell(
    v: Vol,
    t: Map<u64, Seq<u8>>,
    hdr: AgHeader,
    st: u8,
    c: int,
    cells: int,
) -> Option<int>
    decreases cells - c,
{
    if c >= cells {
        None
    } else if cell_of(v, t, hdr, c) == Ok::<u8, FsError>(st) {
        Some(c)
    } else {
        first_cell(v, t, hdr, st, c + 1, cells)
    }
}

/// The first `k` free cells in a row from `c` on, `run` free ones standing
/// right before `c`; an error if a cell on the way cannot be read.
pub open spec fn free_cells(
    v: Vol,
    t: Map<u64, Seq<u8>>,
    hdr: AgHeader,
    k: int,
    c: int,
    run: int,
    cells: int,
) -> Result<Option<int>, FsError>
    decreases cells - c,
{
    if c >= cells {
        Ok(None)
    } else {
        match cell_of(v, t, hdr, c) {
            Err(e) => Err(e),
            Ok(st) => if st != fmt::CELL_FREE {
                free_cells(v, t, hdr, k, c + 1, 0, cells)
            } else if run + 1 == k {
                Ok(Some(c + 1 - k))
            } else {
                free_cells(v, t, hdr, k, c + 1, run + 1, cells)
            },
        }
    }
}

// --- table blocks -------------------------------------------------------------

/// A table block.
pub open spec fn table_of(v: Vol, t: Map<u64, Seq<u8>>, ag: u32, local: u32) -> Result<
    Seq<u8>,
    FsError,
> {
    match vol::rd(v, t, fmt::addr_of(ag, local)) {
        Err(e) => Err(e),
        Ok(b) => if !fmt::has_magic(b, ALLOC_MAGIC) {
            Err(FsError::NotTable { ag, local })
        } else if !fmt::csum_ok(b) {
            Err(FsError::TableChecksum { ag, local })
        } else {
            Ok(b)
        },
    }
}

/// A table block as it is written: under its next generation (which starts
/// over after the last), sealed.
pub open spec fn table_image(b: Seq<u8>) -> Seq<u8> {
    let g = fmt::u64_at(b, 8);
    fmt::sealed(fmt::splice(b, 8, fmt::be64(if g == u64::MAX { 0 } else { (g + 1) as u64 })))
}

/// Writing a table block.
pub open spec fn table_to(t: Map<u64, Seq<u8>>, ag: u32, local: u32, b: Seq<u8>) -> Map<
    u64,
    Seq<u8>,
> {
    t.insert(fmt::addr_of(ag, local), table_image(b))
}

/// Where a record stands in its block.
pub open spec fn rec_off_of(idx: u16) -> int {
    REC_SIZE * (1 + idx)
}

/// A record.
pub open spec fn record_of(v: Vol, t: Map<u64, Seq<u8>>, ag: u32, r: (u32, u16)) -> Result<
    Seq<u8>,
    FsError,
> {
    match table_of(v, t, ag, r.0) {
        Err(e) => Err(e),
        Ok(b) => if rec_off_of(r.1) + REC_SIZE > v.bs {
            Err(FsError::Corrupt)
        } else {
            Ok(b.subrange(rec_off_of(r.1), rec_off_of(r.1) + REC_SIZE))
        },
    }
}

/// Replacing a record.
pub open spec fn record_to(
    v: Vol,
    t: Map<u64, Seq<u8>>,
    ag: u32,
    r: (u32, u16),
    rec: Seq<u8>,
) -> (Map<u64, Seq<u8>>, Result<(), FsError>) {
    match table_of(v, t, ag, r.0) {
        Err(e) => (t, Err(e)),
        Ok(b) => if rec_off_of(r.1) + REC_SIZE > v.bs {
            (t, Err(FsError::Corrupt))
        } else {
            (table_to(t, ag, r.0, fmt::splice(b, rec_off_of(r.1), rec)), Ok(()))
        },
    }
}

impl Gofs {
    fn rt_byte(&self, t: &Txn, hdr: &AgHeader, byte_off: u64) -> (r: Result<
        (u64, usize, Vec<u8>),
        FsError,
    >)
        requires
            self.wf(),
            t.wf(self.sb.blocksize),
        ensures
            match r {
                Ok((blk, o, b)) => rt_at(self.vol(), t@, *hdr, byte_off as int) == Ok::<
                    (u64, int, Seq<u8>),
                    FsError,
                >((blk, o as int, b@)) && b@.len() == self.sb.blocksize && o < b@.len(),
                Err(e) => rt_at(self.vol(), t@, *hdr, byte_off as int) == Err::<
                    (u64, int, Seq<u8>),
                    FsError,
                >(e),
            },
    {
        let bs = self.sb.blocksize as u64;
        let q = byte_off / bs;
        if q > (u32::MAX - hdr.alloc_root) as u64 {
            return Err(FsError::Corrupt);
        }
        let blk = blk_addr(hdr.ag_num, hdr.alloc_root + q as u32);
        let buf = self.txn_read(t, blk)?;
        Ok((blk, (byte_off % bs) as usize, buf))
    }

    pub fn rt_state(&self, t: &Txn, hdr: &AgHeader, c: u64) -> (r: Result<u8, FsError>)
        requires
            self.wf(),
            t.wf(self.sb.blocksize),
        ensures
            r == cell_of(self.vol(), t@, *hdr, c as int),
    {
        let (_blk, off, buf) = self.rt_byte(t, hdr, c / 4)?;
        let b = buf[off];
        let k = c % 4;
        Ok(
            if k == 0 {
                b % 4
            } else if k == 1 {
                b / 4 % 4
            } else if k == 2 {
                b / 16 % 4
            } else {
                b / 64
            },
        )
    }

    pub fn rt_state_set(&self, t: &mut Txn, hdr: &AgHeader, c: u64, st: u8) -> (r: Result<
        (),
        FsError,
    >)
        requires
            self.wf(),
            old(t).wf(self.sb.blocksize),
        ensures
            final(t).wf(self.sb.blocksize),
            (final(t)@, r) == cell_to(self.vol(), old(t)@, *hdr, c as int, st % 4),
    {
        let (blk, off, mut buf) = self.rt_byte(t, hdr, c / 4)?;
        let b = buf[off];
        let k = c % 4;
        let st = st % 4;
        let q0 = if k == 0 { st } else { b % 4 };
        let q1 = if k == 1 { st } else { b / 4 % 4 };
        let q2 = if k == 2 { st } else { b / 16 % 4 };
        let q3 = if k == 3 { st } else { b / 64 };
        buf[off] = q0 + q1 * 4 + q2 * 16 + q3 * 64;
        self.txn_write(t, blk, buf);
        Ok(())
    }

    pub fn rt_ref(&self, t: &Txn, hdr: &AgHeader, c: u64) -> (r: Result<(u32, u16), FsError>)
        requires
            self.wf(),
            t.wf(self.sb.blocksize),
            c <= 0x100_0000,
        ensures
            r == cell_ref(self.vol(), t@, *hdr, c as int),
    {
        let (cells, _) = rt_geometry(hdr.length, self.sb.blocksize);
        let start = rt_ref_off(cells, c);
        let ghost v = self.vol();
        let mut six: Vec<u8> = Vec::new();
        let mut i: u64 = 0;
        while i < 6
            invariant
                i <= 6,
                six@.len() == i,
                start <= 0x1_0000_0000,
                start == cell_ref_off(*hdr, c as int),
                self.wf(),
                t.wf(self.sb.blocksize),
                v == self.vol(),
                rt_gets(v, t@, *hdr, start as int, i as int) == Ok::<Seq<u8>, FsError>(six@),
            decreases 6 - i,
        {
            proof {
                reveal_with_fuel(rt_gets, 7);
                let e = rt_get(v, t@, *hdr, start + i);
                if e is Err {
                    lemma_rt_gets_err(v, t@, *hdr, start as int, i + 1, 6);
                }
            }
            let (_blk, off, buf) = self.rt_byte(t, hdr, start + i)?;
            six.push(buf[off]);
            i = i + 1;
        }
        Ok((get_u32(&six, 0), get_u16(&six, 4)))
    }

    #[verifier::loop_isolation(false)]
    pub fn rt_ref_set(&self, t: &mut Txn, hdr: &AgHeader, c: u64, r: (u32, u16)) -> (res: Result<
        (),
        FsError,
    >)
        requires
            self.wf(),
            old(t).wf(self.sb.blocksize),
            c <= 0x100_0000,
        ensures
            final(t).wf(self.sb.blocksize),
            (final(t)@, res) == cell_ref_to(self.vol(), old(t)@, *hdr, c as int, r),
    {
        let (cells, _) = rt_geometry(hdr.length, self.sb.blocksize);
        let mut six = [0u8; 6];
        put_u32(&mut six, 0, r.0);
        put_u16(&mut six, 4, r.1);
        assert(six@ =~= ref_bytes(r));
        let start = rt_ref_off(cells, c);
        let ghost v = self.vol();
        let mut i: usize = 0;
        assert(six@.skip(0) =~= six@);
        while i < 6
            invariant
                i <= 6,
                t.wf(self.sb.blocksize),
                rt_puts(v, t@, *hdr, start + i, six@.skip(i as int)) == cell_ref_to(
                    v,
                    old(t)@,
                    *hdr,
                    c as int,
                    r,
                ),
            decreases 6 - i,
        {
            assert(six@.skip(i as int).skip(1) =~= six@.skip(i + 1));
            let (blk, off, mut buf) = self.rt_byte(t, hdr, start + i as u64)?;
            buf[off] = six[i];
            self.txn_write(t, blk, buf);
            i = i + 1;
        }
        assert(six@.skip(6) =~= Seq::empty());
        Ok(())
    }

    pub fn tbl_read(&self, t: &Txn, ag: u32, local: u32) -> (r: Result<Vec<u8>, FsError>)
        requires
            self.wf(),
            t.wf(self.sb.blocksize),
        ensures
            match r {
                Ok(b) => table_of(self.vol(), t@, ag, local) == Ok::<Seq<u8>, FsError>(b@)
                    && b@.len() == self.sb.blocksize,
                Err(e) => table_of(self.vol(), t@, ag, local) == Err::<Seq<u8>, FsError>(e),
            },
    {
        let buf = self.txn_read(t, blk_addr(ag, local))?;
        if !magic_is(&buf, &ALLOC_MAGIC) {
            return Err(FsError::NotTable { ag, local });
        }
        if !csum_matches(&buf) {
            return Err(FsError::TableChecksum { ag, local });
        }
        Ok(buf)
    }

    pub fn tbl_write(&self, t: &mut Txn, ag: u32, local: u32, buf: Vec<u8>)
        requires
            self.wf(),
            old(t).wf(self.sb.blocksize),
            buf@.len() == self.sb.blocksize,
        ensures
            final(t).wf(self.sb.blocksize),
            final(t)@ == table_to(old(t)@, ag, local, buf@),
    {
        let mut buf = buf;
        let gen = get_u64(&buf, 8);
        put_u64(&mut buf, 8, if gen == u64::MAX { 0 } else { gen + 1 });
        seal(&mut buf);
        self.txn_write(t, blk_addr(ag, local), buf);
    }

    pub fn rec_read(&self, t: &Txn, ag: u32, r: (u32, u16)) -> (res: Result<[u8; 128], FsError>)
        requires
            self.wf(),
            t.wf(self.sb.blocksize),
        ensures
            match res {
                Ok(rec) => record_of(self.vol(), t@, ag, r) == Ok::<Seq<u8>, FsError>(rec@),
                Err(e) => record_of(self.vol(), t@, ag, r) == Err::<Seq<u8>, FsError>(e),
            },
    {
        let buf = self.tbl_read(t, ag, r.0)?;
        let off = REC_SIZE * (1 + r.1 as usize);
        if off + REC_SIZE > buf.len() {
            return Err(FsError::Corrupt);
        }
        let mut rec = [0u8; 128];
        put_bytes(&mut rec, 0, &buf[off..off + REC_SIZE]);
        assert(rec@ =~= buf@.subrange(off as int, off + REC_SIZE));
        Ok(rec)
    }

    pub fn rec_write(&self, t: &mut Txn, ag: u32, r: (u32, u16), rec: &[u8; 128]) -> (res: Result<
        (),
        FsError,
    >)
        requires
            self.wf(),
            old(t).wf(self.sb.blocksize),
        ensures
            final(t).wf(self.sb.blocksize),
            (final(t)@, res) == record_to(self.vol(), old(t)@, ag, r, rec@),
    {
        let mut buf = self.tbl_read(t, ag, r.0)?;
        let off = REC_SIZE * (1 + r.1 as usize);
        if off + REC_SIZE > buf.len() {
            return Err(FsError::Corrupt);
        }
        put_bytes(&mut buf, off, rec);
        self.tbl_write(t, ag, r.0, buf);
        Ok(())
    }
}

/// An error among the bytes read stays.
pub proof fn lemma_rt_gets_err(
    v: Vol,
    t: Map<u64, Seq<u8>>,
    hdr: AgHeader,
    off: int,
    m: int,
    n: int,
)
    requires
        0 <= m <= n,
        rt_gets(v, t, hdr, off, m) is Err,
    ensures
        rt_gets(v, t, hdr, off, n) == rt_gets(v, t, hdr, off, m),
    decreases n,
{
    if m < n {
        lemma_rt_gets_err(v, t, hdr, off, m, n - 1);
    }
}

} // verus!
