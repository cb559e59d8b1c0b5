//! Per-stream FIFO of bytes with a bit-level read cursor.
//!
//! Each byte stream of a compressed-vector section feeds one of these
//! buffers: packet ingestion appends whole payload runs at the tail, and the
//! decoders consume values from the head, bit by bit or byte-aligned.
//! Appending never invalidates buffered unread bits; consuming only advances
//! the monotonic read cursor.

use crate::bits::bit_at;
use crate::bits::bits_of;
use crate::bits::pow2n;
use crate::bits::lemma_pow2n_mono;
use crate::error::Error;
use vstd::prelude::*;

verus! {

/// Capacity bound of one stream buffer, in bytes.  It keeps bit positions
/// comfortably inside `u64` arithmetic; a stream of a well-formed file stays
/// far below it.
pub const MAX_STREAM_BYTES: usize = 0x4000_0000;

/// Law: the compaction `append` performs — dropping the consumed whole
/// bytes and reducing the cursor to its intra-byte remainder — preserves
/// every unread bit run: reading `m` bits at offset `k` past the cursor
/// yields the same value before and after.
pub proof fn lemma_compaction_preserves_bits(s: Seq<u8>, start: nat, k: nat, m: nat)
    requires
        start + k + m <= 8 * s.len(),
    ensures
        bits_of(s.subrange((start / 8) as int, s.len() as int), start % 8 + k, m) == bits_of(
            s,
            start + k,
            m,
        ),
    decreases m,
{
    vstd::arithmetic::div_mod::lemma_fundamental_div_mod(start as int, 8);
    if m > 0 {
        lemma_compaction_preserves_bits(s, start, k + 1, (m - 1) as nat);
        let d = start / 8;
        let t = s.subrange(d as int, s.len() as int);
        let i2 = (start % 8 + k) as nat;
        assert(start + k == 8 * d + i2) by (nonlinear_arith)
            requires
                start as int == 8 * (start as int / 8) + start as int % 8,
                d == start / 8,
                i2 == start % 8 + k,
        ;
        assert((8 * d + i2) / 8 == d + i2 / 8 && (8 * d + i2) % 8 == i2 % 8) by (nonlinear_arith);
        assert(i2 / 8 < t.len()) by (nonlinear_arith)
            requires
                8 * d + i2 < 8 * s.len(),
                t.len() == s.len() - d,
                8 * (i2 / 8) <= i2,
        ;
        assert(t[(i2 / 8) as int] == s[(d + i2 / 8) as int]);
        assert(bit_at(t, i2) == bit_at(s, (start + k) as nat));
    }
}

/// A byte FIFO for one stream, read bit by bit.
pub struct ByteStreamReadBuffer {
    data: Vec<u8>,
    start_bit: u64,
}

impl ByteStreamReadBuffer {
    /// All bytes ever appended and not yet dropped.
    pub closed spec fn bytes(self) -> Seq<u8> {
        self.data@
    }

    /// The read cursor, as a bit position into `bytes()`.
    pub closed spec fn start(self) -> nat {
        self.start_bit as nat
    }

    /// Count of unread bits.
    pub open spec fn available(self) -> int {
        8 * self.bytes().len() - self.start()
    }

    pub open spec fn wf(self) -> bool {
        &&& self.bytes().len() <= MAX_STREAM_BYTES
        &&& self.start() <= 8 * self.bytes().len()
    }

    /// Creates an empty buffer.
    pub fn new() -> (r: Self)
        ensures
            r.wf(),
            r.bytes() == Seq::<u8>::empty(),
            r.start() == 0,
    {
        ByteStreamReadBuffer { data: Vec::new(), start_bit: 0 }
    }

    /// Count of unread bits.
    pub fn available_bits(&self) -> (r: u64)
        requires
            self.wf(),
        ensures
            r as int == self.available(),
    {
        self.data.len() as u64 * 8 - self.start_bit
    }

    /// Whether the read cursor sits on a byte boundary.
    pub fn is_byte_aligned(&self) -> (r: bool)
        ensures
            r == (self.start() % 8 == 0),
    {
        self.start_bit % 8 == 0
    }

    /// Appends raw bytes at the tail, leaving all unread bits in place.
    /// Whole bytes already consumed are dropped first, so the buffer holds
    /// only pending data; the cap bounds pending bytes alone, and appending
    /// fails only when the pending data would outgrow `MAX_STREAM_BYTES`.
    pub fn append(&mut self, bytes: &Vec<u8>) -> (r: Result<(), Error>)
        requires
            old(self).wf(),
        ensures
            final(self).wf(),
            final(self).start() == old(self).start() % 8,
            match r {
                Ok(()) => {
                    &&& old(self).bytes().len() - old(self).start() / 8 + bytes@.len()
                        <= MAX_STREAM_BYTES
                    &&& final(self).bytes() == old(self).bytes().subrange(
                        (old(self).start() / 8) as int,
                        old(self).bytes().len() as int,
                    ) + bytes@
                },
                Err(e) => {
                    &&& e == Error::Io
                    &&& old(self).bytes().len() - old(self).start() / 8 + bytes@.len()
                        > MAX_STREAM_BYTES
                    &&& final(self).bytes() == old(self).bytes().subrange(
                        (old(self).start() / 8) as int,
                        old(self).bytes().len() as int,
                    )
                },
            },
    {
        let ghost st0 = old(self).start();
        let ghost len0 = old(self).bytes().len();
        proof {
            assert(st0 / 8 <= len0) by (nonlinear_arith)
                requires
                    st0 <= 8 * len0,
            ;
        }
        let consumed = (self.start_bit / 8) as usize;
        let tail = self.data.split_off(consumed);
        self.data = tail;
        self.start_bit = self.start_bit % 8;
        proof {
            if self.data@.len() == 0 {
                assert(st0 % 8 == 0) by (nonlinear_arith)
                    requires
                        st0 <= 8 * len0,
                        st0 / 8 == len0,
                ;
            }
        }
        if bytes.len() > MAX_STREAM_BYTES - self.data.len() {
            return Err(Error::Io);
        }
        self.data.extend_from_slice(bytes.as_slice());
        Ok(())
    }

    /// Removes and returns the next `k` bits, least significant bit first.
    pub fn consume_bits(&mut self, k: u64) -> (r: u64)
        requires
            old(self).wf(),
            k <= 64,
            k as int <= old(self).available(),
        ensures
            final(self).wf(),
            final(self).bytes() == old(self).bytes(),
            final(self).start() == old(self).start() + k,
            r as nat == bits_of(old(self).bytes(), old(self).start(), k as nat),
    {
        let ghost s = self.data@;
        let ghost st = self.start_bit as nat;
        let mut r: u64 = 0;
        let mut j: u64 = k;
        while j > 0
            invariant
                j <= k,
                k <= 64,
                self.wf(),
                self.bytes() == s,
                self.start() == st,
                st + k <= 8 * s.len(),
                r as nat == bits_of(s, st + j as nat, (k - j) as nat),
                r < pow2n((k - j) as nat),
            decreases j,
        {
            j = j - 1;
            let idx: u64 = self.start_bit + j;
            proof {
                assert(idx as nat / 8 < s.len()) by {
                    assert(idx < 8 * s.len());
                    assert(8 * (idx as nat / 8) <= idx as nat) by (nonlinear_arith);
                };
            }
            let byte = self.data[(idx / 8) as usize];
            let bit = ((byte as u64) >> (idx % 8)) & 1;
            proof {
                assert(((byte as u64) >> (idx % 8)) & 1 <= 1) by (bit_vector);
                assert(bit == bit_at(s, idx as nat));
                assert(bits_of(s, st + j as nat, (k - j) as nat) == bit_at(s, st + j as nat) as nat
                    + 2 * bits_of(s, st + j as nat + 1, (k - j - 1) as nat));
                lemma_pow2n_mono((k - j - 1) as nat, 63);
                crate::bits::lemma_pow2n_is_pow2(63);
                vstd::arithmetic::power2::lemma2_to64();
                vstd::arithmetic::power2::lemma2_to64_rest();
                assert(pow2n(63) == 0x8000000000000000);
                assert(pow2n((k - j) as nat) == 2 * pow2n((k - j - 1) as nat));
            }
            r = r * 2 + bit;
        }
        self.start_bit = self.start_bit + k;
        r
    }

    /// Removes and returns the next `count` whole bytes.  The read cursor
    /// must be byte-aligned; a misaligned cursor is an internal error, and a
    /// buffer holding fewer than `count` unread bytes fails as a short read.
    pub fn consume_bytes(&mut self, count: usize) -> (r: Result<Vec<u8>, Error>)
        requires
            old(self).wf(),
        ensures
            final(self).wf(),
            final(self).bytes() == old(self).bytes(),
            match r {
                Ok(v) => {
                    &&& old(self).start() % 8 == 0
                    &&& old(self).start() / 8 + count <= old(self).bytes().len()
                    &&& v@ == old(self).bytes().subrange(
                        (old(self).start() / 8) as int,
                        (old(self).start() / 8 + count) as int,
                    )
                    &&& final(self).start() == old(self).start() + 8 * count
                },
                Err(e) => {
                    &&& final(self).start() == old(self).start()
                    &&& (e == Error::Internal && old(self).start() % 8 != 0) || (e == Error::Io
                        && old(self).start() % 8 == 0 && old(self).start() / 8 + count > old(
                        self,
                    ).bytes().len())
                },
            },
    {
        if self.start_bit % 8 != 0 {
            return Err(Error::Internal);
        }
        let first = (self.start_bit / 8) as usize;
        if count > self.data.len() - first {
            return Err(Error::Io);
        }
        let mut v: Vec<u8> = Vec::new();
        let mut i: usize = 0;
        while i < count
            invariant
                i <= count,
                first + count <= self.bytes().len(),
                self.wf(),
                self.bytes() == old(self).bytes(),
                self.start() == old(self).start(),
                first == self.start() / 8,
                v@ == self.bytes().subrange(first as int, first as int + i as int),
            decreases count - i,
        {
            let b = self.data[first + i];
            v.push(b);
            proof {
                assert(v@ =~= self.bytes().subrange(first as int, first as int + i as int + 1));
            }
            i = i + 1;
        }
        self.start_bit = self.start_bit + 8 * count as u64;
        Ok(v)
    }
}

} // verus!
