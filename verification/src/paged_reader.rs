//! Random-access reader over a CRC-paged byte image.
//!
//! A physical page is `page_size` bytes laid out as `payload[page_size - 4]`
//! followed by a little-endian CRC-32C of the payload.  The reader presents
//! the concatenation of all page payloads as one logical byte stream: upper
//! layers never see CRC trailers, and every page entered by a read is
//! checked against its stored checksum.

use crate::bits::le_u32;
use crate::bits::read_u32_le;
use crate::crc::crc32;
use crate::crc::crc32_range;
use crate::error::Error;
use crate::error::InvalidFileKind;
use vstd::prelude::*;

verus! {

/// Acceptable page sizes: at least 8 bytes and a multiple of 4, so that a
/// page holds a payload and its 4-byte trailer and page payloads keep 4-byte
/// logical alignment.
pub open spec fn page_size_wf(psz: nat) -> bool {
    &&& psz >= 8
    &&& psz % 4 == 0
}

/// Payload bytes per page.
pub open spec fn payload_len(psz: nat) -> nat {
    (psz - 4) as nat
}

/// Physical offset of logical position `l`.
pub open spec fn phys_of(psz: nat, l: nat) -> nat {
    (l / payload_len(psz)) * psz + l % payload_len(psz)
}

/// Logical position of physical offset `off` (meaningful only when `off`
/// does not fall on a CRC trailer).
pub open spec fn logical_of_physical(psz: nat, off: nat) -> nat {
    (off / psz) * payload_len(psz) + off % psz
}

/// The logical byte at position `l`.
pub open spec fn logical_byte(file: Seq<u8>, psz: nat, l: nat) -> u8 {
    file[phys_of(psz, l) as int]
}

/// The `n` logical bytes starting at position `start`.
pub open spec fn logical_seq(file: Seq<u8>, psz: nat, start: nat, n: nat) -> Seq<u8> {
    Seq::new(n, |i: int| logical_byte(file, psz, (start + i) as nat))
}

/// The payload of page `p`.
pub open spec fn page_payload(file: Seq<u8>, psz: nat, p: nat) -> Seq<u8> {
    file.subrange((p * psz) as int, (p * psz + payload_len(psz)) as int)
}

/// The checksum stored in page `p`'s trailer.
pub open spec fn page_stored_crc(file: Seq<u8>, psz: nat, p: nat) -> u32 {
    le_u32(file.subrange((p * psz + payload_len(psz)) as int, (p * psz + psz) as int))
}

/// Page `p`'s stored checksum matches its payload.
pub open spec fn page_ok(file: Seq<u8>, psz: nat, p: nat) -> bool {
    crc32(page_payload(file, psz, p)) == page_stored_crc(file, psz, p)
}

/// Every page in `[p0, p1)` verifies.
pub open spec fn pages_ok(file: Seq<u8>, psz: nat, p0: nat, p1: nat) -> bool {
    forall|p: nat| p0 <= p < p1 ==> #[trigger] page_ok(file, psz, p)
}

/// Pages covering the logical window `[start, start + n)` all verify.
pub open spec fn window_pages_ok(file: Seq<u8>, psz: nat, start: nat, n: nat) -> bool {
    n == 0 || pages_ok(file, psz, start / payload_len(psz), (start + n - 1) as nat / payload_len(
        psz,
    ) + 1)
}

/// The next 4-byte-aligned logical position at or after `l`.
pub open spec fn align4(l: nat) -> nat {
    if l % 4 == 0 {
        l
    } else {
        (l + 4 - l % 4) as nat
    }
}

/// Random-access reader over a CRC-paged in-memory byte image.
pub struct PagedReader {
    data: Vec<u8>,
    page_size: u64,
    pos: u64,
}

impl PagedReader {
    /// The whole physical byte image.
    pub closed spec fn file(self) -> Seq<u8> {
        self.data@
    }

    /// The page size in bytes.
    pub closed spec fn psz(self) -> nat {
        self.page_size as nat
    }

    /// The logical cursor.
    pub closed spec fn position(self) -> nat {
        self.pos as nat
    }

    /// Number of whole pages in the image.
    pub open spec fn num_pages(self) -> nat {
        self.file().len() / self.psz()
    }

    /// Total count of logical (payload) bytes.
    pub open spec fn logical_len(self) -> nat {
        self.num_pages() * payload_len(self.psz())
    }

    pub open spec fn wf(self) -> bool {
        &&& page_size_wf(self.psz())
        &&& self.file().len() % self.psz() == 0
    }

    /// Wraps a byte image with its page size.  The page size must be at
    /// least 8 and a multiple of 4, and the image a whole number of pages.
    pub fn new(data: Vec<u8>, page_size: u64) -> (r: Result<PagedReader, Error>)
        ensures
            match r {
                Ok(pr) => {
                    &&& pr.wf()
                    &&& pr.file() == data@
                    &&& pr.psz() == page_size as nat
                    &&& pr.position() == 0
                },
                Err(e) => (e == Error::InvalidArgument && !page_size_wf(page_size as nat)) || (e
                    == Error::InvalidFile(InvalidFileKind::TruncatedFile) && page_size_wf(
                    page_size as nat,
                ) && data@.len() % page_size as nat != 0),
            },
    {
        if page_size < 8 || page_size % 4 != 0 {
            return Err(Error::InvalidArgument);
        }
        if data.len() as u64 % page_size != 0 {
            return Err(Error::InvalidFile(InvalidFileKind::TruncatedFile));
        }
        Ok(PagedReader { data, page_size, pos: 0 })
    }

    /// The logical cursor, as a byte count from the start of the stream.
    pub fn logical_position(&self) -> (r: u64)
        ensures
            r as nat == self.position(),
    {
        self.pos
    }

    /// Total count of logical bytes in the image.
    pub fn logical_length(&self) -> (r: u64)
        requires
            self.wf(),
        ensures
            r as nat == self.logical_len(),
    {
        let n = self.data.len() as u64;
        let npages = n / self.page_size;
        proof {
            lemma_npages_mul(self.file().len(), self.psz());
        }
        npages * (self.page_size - 4)
    }

    /// Positions the logical cursor at the logical byte corresponding to
    /// physical byte `offset`.  Offsets falling on a CRC trailer are
    /// rejected; offsets past the end of the image fail as a seek error.
    pub fn seek_physical(&mut self, offset: u64) -> (r: Result<(), Error>)
        requires
            old(self).wf(),
        ensures
            final(self).wf(),
            final(self).file() == old(self).file(),
            final(self).psz() == old(self).psz(),
            match r {
                Ok(()) => {
                    &&& offset as nat <= old(self).file().len()
                    &&& offset as nat % old(self).psz() < payload_len(old(self).psz())
                    &&& final(self).position() == logical_of_physical(old(self).psz(), offset as nat)
                },
                Err(e) => {
                    &&& final(self).position() == old(self).position()
                    &&& (e == Error::Io && offset as nat > old(self).file().len()) || (e
                        == Error::InvalidArgument && offset as nat <= old(self).file().len()
                        && offset as nat % old(self).psz() >= payload_len(old(self).psz()))
                },
            },
    {
        if offset > self.data.len() as u64 {
            return Err(Error::Io);
        }
        let m = offset % self.page_size;
        if m >= self.page_size - 4 {
            return Err(Error::InvalidArgument);
        }
        let q = offset / self.page_size;
        proof {
            let psz = self.psz() as int;
            vstd::arithmetic::div_mod::lemma_fundamental_div_mod(offset as int, psz);
            assert((offset as int / psz) * (psz - 4) + offset as int % psz <= offset as int)
                by (nonlinear_arith)
                requires
                    psz >= 8,
                    offset as int == psz * (offset as int / psz) + offset as int % psz,
                    offset as int % psz >= 0,
                    offset as int / psz >= 0,
            ;
        }
        self.pos = q * (self.page_size - 4) + m;
        Ok(())
    }

    /// Fills a fresh buffer with the next `count` logical bytes,
    /// transparently crossing page boundaries; every page the read touches
    /// is checked against its stored checksum.
    pub fn read_exact(&mut self, count: usize) -> (r: Result<Vec<u8>, Error>)
        requires
            old(self).wf(),
        ensures
            final(self).wf(),
            final(self).file() == old(self).file(),
            final(self).psz() == old(self).psz(),
            match r {
                Ok(v) => {
                    &&& old(self).position() + count <= old(self).logical_len()
                    &&& window_pages_ok(
                        old(self).file(),
                        old(self).psz(),
                        old(self).position(),
                        count as nat,
                    )
                    &&& v@ == logical_seq(
                        old(self).file(),
                        old(self).psz(),
                        old(self).position(),
                        count as nat,
                    )
                    &&& final(self).position() == old(self).position() + count
                },
                Err(e) => {
                    &&& final(self).position() == old(self).position()
                    &&& (e == Error::Io && old(self).position() + count > old(self).logical_len())
                        || (e == Error::InvalidFile(InvalidFileKind::CrcMismatch) && old(
                        self,
                    ).position() + count <= old(self).logical_len() && !window_pages_ok(
                        old(self).file(),
                        old(self).psz(),
                        old(self).position(),
                        count as nat,
                    ))
                },
            },
    {
        let ghost file = self.file();
        let ghost psz = self.psz();
        let flen: usize = self.data.len();
        let pl: u64 = self.page_size - 4;
        let npages: u64 = flen as u64 / self.page_size;
        proof {
            lemma_npages_mul(file.len(), psz);
        }
        let llen: u64 = npages * pl;
        if self.pos > llen || count as u64 > llen - self.pos {
            return Err(Error::Io);
        }
        if count > 0 {
            let ghost pos0 = self.position();
            let p0 = self.pos / pl;
            let p1 = (self.pos + count as u64 - 1) / pl;
            proof {
                lemma_logical_page_bounds(file, psz, (self.pos + count as u64 - 1) as nat);
                lemma_div_le(self.pos as nat, (self.pos + count as u64 - 1) as nat, pl as nat);
            }
            let mut p = p0;
            while p <= p1
                invariant
                    self.wf(),
                    self.file() == file,
                    self.psz() == psz,
                    self.position() == pos0,
                    pos0 + count <= self.logical_len(),
                    count > 0,
                    flen as nat == file.len(),
                    pl == psz - 4,
                    p0 as nat == pos0 / payload_len(psz),
                    p1 as nat == (pos0 + count - 1) as nat / payload_len(psz),
                    p0 <= p <= p1 + 1,
                    (p1 + 1) as nat * psz <= file.len(),
                    pages_ok(file, psz, p0 as nat, p as nat),
                decreases p1 + 1 - p,
            {
                proof {
                    assert(p as nat * psz + psz <= (p1 + 1) as nat * psz) by (nonlinear_arith)
                        requires
                            p < p1 + 1,
                            psz >= 8,
                    ;
                    assert((p1 + 1) as nat <= file.len()) by (nonlinear_arith)
                        requires
                            (p1 + 1) as nat * psz <= file.len(),
                            psz >= 8,
                    ;
                }
                let base = p * self.page_size;
                let computed = crc32_range(&self.data, base as usize, (self.page_size - 4) as usize);
                let stored = read_u32_le(&self.data, (base + pl) as usize);
                proof {
                    assert(computed == crc32(page_payload(file, psz, p as nat)));
                    assert(stored == page_stored_crc(file, psz, p as nat));
                }
                if computed != stored {
                    proof {
                        assert(!page_ok(file, psz, p as nat));
                        assert(!pages_ok(file, psz, p0 as nat, p1 as nat + 1)) by {
                            if pages_ok(file, psz, p0 as nat, p1 as nat + 1) {
                                assert(page_ok(file, psz, p as nat));
                            }
                        }
                        assert(!window_pages_ok(file, psz, pos0, count as nat));
                    }
                    return Err(Error::InvalidFile(InvalidFileKind::CrcMismatch));
                }
                p = p + 1;
                proof {
                    assert(pages_ok(file, psz, p0 as nat, p as nat));
                }
            }
            proof {
                assert(window_pages_ok(file, psz, pos0, count as nat));
            }
        }
        let ghost start = self.position();
        let mut v: Vec<u8> = Vec::new();
        let mut i: usize = 0;
        while i < count
            invariant
                self.wf(),
                self.file() == file,
                self.psz() == psz,
                flen as nat == file.len(),
                llen as nat == self.logical_len(),
                pl == psz - 4,
                self.position() == start,
                i <= count,
                start + count <= self.logical_len(),
                v@ == logical_seq(file, psz, start, i as nat),
            decreases count - i,
        {
            let l = self.pos + i as u64;
            proof {
                lemma_logical_page_bounds(file, psz, l as nat);
            }
            let pg = l / pl;
            let off = l % pl;
            let idx = pg * self.page_size + off;
            let b = self.data[idx as usize];
            v.push(b);
            proof {
                assert(idx as nat == phys_of(psz, l as nat));
                assert(b == logical_byte(file, psz, (start + i) as nat));
                assert(v@ =~= logical_seq(file, psz, start, (i + 1) as nat));
            }
            i = i + 1;
        }
        self.pos = self.pos + count as u64;
        Ok(v)
    }

    /// Advances the logical cursor forward to the next multiple of 4
    /// logical bytes; packet padding skipped this way is not read.
    pub fn align(&mut self) -> (r: Result<(), Error>)
        requires
            old(self).wf(),
        ensures
            final(self).wf(),
            final(self).file() == old(self).file(),
            final(self).psz() == old(self).psz(),
            match r {
                Ok(()) => {
                    &&& align4(old(self).position()) <= old(self).logical_len()
                    &&& final(self).position() == align4(old(self).position())
                    &&& final(self).position() % 4 == 0
                },
                Err(e) => {
                    &&& e == Error::Io
                    &&& align4(old(self).position()) > old(self).logical_len()
                    &&& final(self).position() == old(self).position()
                },
            },
    {
        let pl: u64 = self.page_size - 4;
        let npages: u64 = self.data.len() as u64 / self.page_size;
        proof {
            lemma_npages_mul(self.file().len(), self.psz());
        }
        let llen: u64 = npages * pl;
        let m = self.pos % 4;
        if m == 0 {
            if self.pos > llen {
                return Err(Error::Io);
            }
            return Ok(());
        }
        let add = 4 - m;
        if self.pos > llen || add > llen - self.pos {
            return Err(Error::Io);
        }
        proof {
            vstd::arithmetic::div_mod::lemma_fundamental_div_mod(self.pos as int, 4);
            let q = self.pos as int / 4;
            assert((4 * q + 4) % 4 == 0) by (nonlinear_arith);
        }
        self.pos = self.pos + add;
        Ok(())
    }

    /// Checks every page of the image against its stored checksum.
    pub fn validate_crc(&self) -> (r: Result<(), Error>)
        requires
            self.wf(),
        ensures
            match r {
                Ok(()) => pages_ok(self.file(), self.psz(), 0, self.num_pages()),
                Err(e) => {
                    &&& e == Error::InvalidFile(InvalidFileKind::CrcMismatch)
                    &&& !pages_ok(self.file(), self.psz(), 0, self.num_pages())
                },
            },
    {
        let ghost file = self.file();
        let ghost psz = self.psz();
        let flen: usize = self.data.len();
        let npages: u64 = flen as u64 / self.page_size;
        proof {
            lemma_npages_mul(file.len(), psz);
        }
        let mut p: u64 = 0;
        while p < npages
            invariant
                self.wf(),
                self.file() == file,
                self.psz() == psz,
                flen as nat == file.len(),
                npages as nat == self.num_pages(),
                npages as nat * psz == file.len(),
                p <= npages,
                pages_ok(file, psz, 0, p as nat),
            decreases npages - p,
        {
            proof {
                assert(p as nat * psz + psz <= npages as nat * psz) by (nonlinear_arith)
                    requires
                        p < npages,
                        psz >= 8,
                ;
            }
            let base = p * self.page_size;
            let computed = crc32_range(&self.data, base as usize, (self.page_size - 4) as usize);
            let stored = read_u32_le(&self.data, (base + (self.page_size - 4)) as usize);
            proof {
                assert(computed == crc32(page_payload(file, psz, p as nat)));
                assert(stored == page_stored_crc(file, psz, p as nat));
            }
            if computed != stored {
                proof {
                    assert(!page_ok(file, psz, p as nat));
                }
                return Err(Error::InvalidFile(InvalidFileKind::CrcMismatch));
            }
            p = p + 1;
            proof {
                assert(pages_ok(file, psz, 0, p as nat));
            }
        }
        Ok(())
    }
}

/// Law: corrupting a page's stored checksum is always detected.  If a page
/// verifies in one image, and a second image carries the same payload for
/// that page but any difference in its 4-byte trailer, the page fails to
/// verify in the second image.  (A flipped payload byte is caught by the
/// checksum comparison itself, which tests exercise byte by byte.)
pub proof fn lemma_trailer_corruption_detected(f1: Seq<u8>, f2: Seq<u8>, psz: nat, p: nat)
    requires
        page_size_wf(psz),
        p * psz + psz <= f1.len(),
        p * psz + psz <= f2.len(),
        page_payload(f1, psz, p) == page_payload(f2, psz, p),
        f1.subrange((p * psz + payload_len(psz)) as int, (p * psz + psz) as int) != f2.subrange(
            (p * psz + payload_len(psz)) as int,
            (p * psz + psz) as int,
        ),
        page_ok(f1, psz, p),
    ensures
        !page_ok(f2, psz, p),
{
    let t1 = f1.subrange((p * psz + payload_len(psz)) as int, (p * psz + psz) as int);
    let t2 = f2.subrange((p * psz + payload_len(psz)) as int, (p * psz + psz) as int);
    crate::bits::lemma_u32_le_bytes_round_trip(t1);
    crate::bits::lemma_u32_le_bytes_round_trip(t2);
    assert(le_u32(t1) != le_u32(t2));
}

proof fn lemma_div_le(a: nat, b: nat, d: nat)
    requires
        a <= b,
        d >= 1,
    ensures
        a / d <= b / d,
{
    vstd::arithmetic::div_mod::lemma_div_is_ordered(a as int, b as int, d as int);
}

/// With a whole number of pages, `num_pages * page_size` is the file length
/// and the logical length fits beneath it.
proof fn lemma_npages_mul(len: nat, psz: nat)
    requires
        page_size_wf(psz),
        len % psz == 0,
    ensures
        (len / psz) * psz == len,
        (len / psz) * payload_len(psz) <= len,
{
    vstd::arithmetic::div_mod::lemma_fundamental_div_mod(len as int, psz as int);
    assert((len / psz) * psz == len) by (nonlinear_arith)
        requires
            psz >= 8,
            len % psz == 0,
            len as int == psz as int * (len as int / psz as int) + len as int % psz as int,
    ;
    assert((len / psz) * payload_len(psz) <= (len / psz) * psz) by (nonlinear_arith)
        requires
            psz >= 8,
            payload_len(psz) == (psz - 4) as nat,
            len as int / psz as int >= 0,
    ;
}

/// A logical position below the logical length lies inside the page it
/// addresses, and that page lies inside the file.
proof fn lemma_logical_page_bounds(file: Seq<u8>, psz: nat, l: nat)
    requires
        page_size_wf(psz),
        file.len() % psz == 0,
        l < (file.len() / psz) * payload_len(psz),
    ensures
        l / payload_len(psz) < file.len() / psz,
        (l / payload_len(psz) + 1) as nat * psz <= file.len(),
        phys_of(psz, l) < (l / payload_len(psz)) * psz + payload_len(psz),
        (l / payload_len(psz)) * psz + psz <= file.len(),
{
    let pl = payload_len(psz) as int;
    let np = file.len() as int / psz as int;
    let d = l as int / pl;
    let m = l as int % pl;
    vstd::arithmetic::div_mod::lemma_fundamental_div_mod(l as int, pl);
    vstd::arithmetic::div_mod::lemma_fundamental_div_mod(file.len() as int, psz as int);
    assert(d < np) by (nonlinear_arith)
        requires
            pl >= 4,
            l as int == pl * d + m,
            0 <= m < pl,
            l < np * pl,
            d >= 0,
            np >= 0,
    ;
    assert((d + 1) * psz <= np * psz) by (nonlinear_arith)
        requires
            d < np,
            psz >= 8,
    ;
    assert(np * psz as int == file.len()) by (nonlinear_arith)
        requires
            psz >= 8,
            file.len() as int % psz as int == 0,
            file.len() as int == psz as int * np + file.len() as int % psz as int,
    ;
    assert(d * psz + pl + 4 == (d + 1) * psz) by (nonlinear_arith)
        requires
            pl == psz - 4,
    ;
}

} // verus!
