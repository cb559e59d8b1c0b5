//! Decoders that drain a byte-stream buffer into a queue of typed values,
//! one decoder per record data type.
//!
//! Each decoder takes as many whole values as the buffer holds, leaving at
//! most one value's worth minus one bit behind.  `Single` and `Double`
//! values are 4- and 8-byte little-endian passthroughs; integer kinds are
//! bit-packed unsigned offsets from the declared minimum.

use crate::bits::bit_width;
use crate::bits::bits_of;
use crate::bits::le_u32;
use crate::bits::le_u64;
use crate::bits::lemma_bit_width_le;
use crate::bits::lemma_pow2n_is_pow2;
use crate::bits::pow2n;
use crate::bits::read_u32_le;
use crate::bits::read_u64_le;
use crate::bs_read::ByteStreamReadBuffer;
use crate::error::Error;
use crate::error::InvalidFileKind;
use crate::pointcloud::int_bits;
use crate::pointcloud::RecordDataType;
use crate::pointcloud::int_range_valid;
use crate::pointcloud::RecordValue;
use std::collections::VecDeque;
use vstd::prelude::*;

verus! {

/// An `Integer` value inside `[min, max]`.
pub open spec fn int_in_range(v: RecordValue, min: i64, max: i64) -> bool {
    v matches RecordValue::Integer(x) && min <= x <= max
}

/// A `ScaledInteger` value inside `[min, max]`.
pub open spec fn scaled_in_range(v: RecordValue, min: i64, max: i64) -> bool {
    v matches RecordValue::ScaledInteger(x) && min <= x <= max
}

/// The `j`-th 32-bit passthrough value of a byte run starting at byte
/// `byte0`.
pub open spec fn single_at(bytes: Seq<u8>, byte0: nat, j: nat) -> RecordValue {
    RecordValue::Single(
        le_u32(bytes.subrange((byte0 + 4 * j) as int, (byte0 + 4 * j + 4) as int)),
    )
}

/// The `j`-th 64-bit passthrough value of a byte run starting at byte
/// `byte0`.
pub open spec fn double_at(bytes: Seq<u8>, byte0: nat, j: nat) -> RecordValue {
    RecordValue::Double(
        le_u64(bytes.subrange((byte0 + 8 * j) as int, (byte0 + 8 * j + 8) as int)),
    )
}

/// The `j`-th raw `bits`-wide chunk of a bit run starting at bit `start`.
pub open spec fn int_chunk(bytes: Seq<u8>, start: nat, bits: nat, j: nat) -> nat {
    bits_of(bytes, start + j * bits, bits)
}

/// The `j`-th decoded integer value: `min` plus the raw chunk, tagged as
/// scaled or plain.
pub open spec fn int_value_at(
    bytes: Seq<u8>,
    start: nat,
    bits: nat,
    min: i64,
    scaled: bool,
    j: nat,
) -> RecordValue {
    let v = (min + int_chunk(bytes, start, bits, j)) as i64;
    if scaled {
        RecordValue::ScaledInteger(v)
    } else {
        RecordValue::Integer(v)
    }
}

/// Whether the decoder for `dt` drains a buffer holding `bytes` from bit
/// cursor `start` without an error: the passthrough decoders need a
/// byte-aligned cursor, the integer decoders a decodable declared range with
/// every whole chunk inside it.
pub open spec fn decode_ok(dt: RecordDataType, bytes: Seq<u8>, start: nat) -> bool {
    match dt {
        RecordDataType::Single { .. } => start % 8 == 0,
        RecordDataType::Double { .. } => start % 8 == 0,
        RecordDataType::ScaledInteger { min, max, .. } => int_range_valid(min, max) && (int_bits(
            min,
            max,
        ) > 0 ==> forall|j: int|
            0 <= j < (8 * bytes.len() - start) / int_bits(min, max) as int
                ==> #[trigger] int_chunk(bytes, start, int_bits(min, max), j as nat) <= max - min),
        RecordDataType::Integer { min, max } => int_range_valid(min, max) && (int_bits(min, max)
            > 0 ==> forall|j: int|
            0 <= j < (8 * bytes.len() - start) / int_bits(min, max) as int
                ==> #[trigger] int_chunk(bytes, start, int_bits(min, max), j as nat) <= max - min),
    }
}

/// The queue contents after the decoder for `dt` drains a buffer holding
/// `bytes` from bit cursor `start` into a queue holding `q0`.
pub open spec fn drained_values(
    dt: RecordDataType,
    bytes: Seq<u8>,
    start: nat,
    q0: Seq<RecordValue>,
) -> Seq<RecordValue> {
    match dt {
        RecordDataType::Single { .. } => q0 + Seq::new(
            ((8 * bytes.len() - start) / 32) as nat,
            |j: int| single_at(bytes, start / 8, j as nat),
        ),
        RecordDataType::Double { .. } => q0 + Seq::new(
            ((8 * bytes.len() - start) / 64) as nat,
            |j: int| double_at(bytes, start / 8, j as nat),
        ),
        RecordDataType::ScaledInteger { min, max, .. } => if int_bits(min, max) == 0 {
            q0
        } else {
            q0 + Seq::new(
                ((8 * bytes.len() - start) / int_bits(min, max) as int) as nat,
                |j: int| int_value_at(bytes, start, int_bits(min, max), min, true, j as nat),
            )
        },
        RecordDataType::Integer { min, max } => if int_bits(min, max) == 0 {
            q0
        } else {
            q0 + Seq::new(
                ((8 * bytes.len() - start) / int_bits(min, max) as int) as nat,
                |j: int| int_value_at(bytes, start, int_bits(min, max), min, false, j as nat),
            )
        },
    }
}

/// The bit cursor after that drain.
pub open spec fn drained_cursor(dt: RecordDataType, bytes: Seq<u8>, start: nat) -> nat {
    match dt {
        RecordDataType::Single { .. } => (start + ((8 * bytes.len() - start) / 32) * 32) as nat,
        RecordDataType::Double { .. } => (start + ((8 * bytes.len() - start) / 64) * 64) as nat,
        RecordDataType::ScaledInteger { min, max, .. } => if int_bits(min, max) == 0 {
            start
        } else {
            (start + ((8 * bytes.len() - start) / int_bits(min, max) as int) * int_bits(
                min,
                max,
            )) as nat
        },
        RecordDataType::Integer { min, max } => if int_bits(min, max) == 0 {
            start
        } else {
            (start + ((8 * bytes.len() - start) / int_bits(min, max) as int) * int_bits(
                min,
                max,
            )) as nat
        },
    }
}

/// Computes `bit_width(n)`: the least `w` with `n < 2^w`.
fn bit_width_exec(n: u64) -> (r: u64)
    ensures
        r as nat == bit_width(n as nat),
        r <= 64,
{
    proof {
        lemma_pow2n_is_pow2(64);
        vstd::arithmetic::power2::lemma2_to64();
        vstd::arithmetic::power2::lemma2_to64_rest();
        lemma_bit_width_le(n as nat, 64);
    }
    let mut v: u64 = n;
    let mut w: u64 = 0;
    while v > 0
        invariant
            w + bit_width(v as nat) == bit_width(n as nat),
            bit_width(n as nat) <= 64,
        decreases v,
    {
        v = v / 2;
        w = w + 1;
    }
    w
}

/// Decoders for the four record data types.
pub struct BitPack;

impl BitPack {
    /// Drains whole 4-byte little-endian `Single` values from `stream` into
    /// `queue`.  The stream's cursor must be byte-aligned, as it always is
    /// for a stream fed only to this decoder.
    pub fn unpack_singles(stream: &mut ByteStreamReadBuffer, queue: &mut VecDeque<RecordValue>) -> (r:
        Result<(), Error>)
        requires
            old(stream).wf(),
        ensures
            final(stream).wf(),
            final(stream).bytes() == old(stream).bytes(),
            match r {
                Ok(()) => {
                    let n = old(stream).available() / 32;
                    &&& old(stream).start() % 8 == 0
                    &&& final(stream).start() == old(stream).start() + n * 32
                    &&& final(stream).available() < 32
                    &&& final(queue)@ == old(queue)@ + Seq::new(
                        n as nat,
                        |j: int| single_at(old(stream).bytes(), old(stream).start() / 8, j as nat),
                    )
                },
                Err(e) => {
                    &&& e == Error::Internal
                    &&& old(stream).start() % 8 != 0
                    &&& final(stream).start() == old(stream).start()
                    &&& final(queue)@ == old(queue)@
                },
            },
    {
        if !stream.is_byte_aligned() {
            return Err(Error::Internal);
        }
        let ghost bytes0 = stream.bytes();
        let ghost st0 = stream.start();
        let ghost b0 = st0 / 8;
        let ghost q0 = queue@;
        let ghost n = (8 * bytes0.len() - st0) / 32;
        let mut i: u64 = 0;
        while stream.available_bits() >= 32
            invariant
                stream.wf(),
                stream.bytes() == bytes0,
                st0 % 8 == 0,
                b0 == st0 / 8,
                stream.start() == st0 + i * 32,
                st0 + i * 32 <= 8 * bytes0.len(),
                n == (8 * bytes0.len() - st0) as int / 32,
                i <= n,
                queue@ == q0 + Seq::new(i as nat, |j: int| single_at(bytes0, b0, j as nat)),
            decreases 8 * bytes0.len() - st0 - i * 32,
        {
            proof {
                assert((st0 + i * 32) % 8 == 0) by (nonlinear_arith)
                    requires
                        st0 % 8 == 0,
                ;
                assert((st0 + i * 32) / 8 + 4 <= bytes0.len() && (st0 + i * 32) / 8 == b0 + 4 * i)
                    by (nonlinear_arith)
                    requires
                        st0 % 8 == 0,
                        b0 == st0 / 8,
                        (st0 + i * 32) % 8 == 0,
                        st0 + i * 32 + 32 <= 8 * bytes0.len(),
                ;
            }
            let chunk = match stream.consume_bytes(4) {
                Ok(v) => v,
                Err(_) => {
                    proof {
                        assert(false);
                    }
                    return Err(Error::Internal);
                },
            };
            let val = read_u32_le(&chunk, 0);
            proof {
                assert(chunk@.subrange(0, 4) =~= chunk@);
                assert(chunk@ == bytes0.subrange(
                    (b0 + 4 * i) as int,
                    (b0 + 4 * i + 4) as int,
                ));
            }
            queue.push_back(RecordValue::Single(val));
            proof {
                assert(Seq::new((i + 1) as nat, |j: int| single_at(bytes0, b0, j as nat))
                    =~= Seq::new(i as nat, |j: int| single_at(bytes0, b0, j as nat)).push(
                    single_at(bytes0, b0, i as nat),
                ));
                assert(queue@ =~= q0 + Seq::new(
                    (i + 1) as nat,
                    |j: int| single_at(bytes0, b0, j as nat),
                ));
                assert(i + 1 <= n && (st0 + (i + 1) * 32 <= 8 * bytes0.len())) by (nonlinear_arith)
                    requires
                        n == (8 * bytes0.len() - st0) as int / 32,
                        st0 + i * 32 + 32 <= 8 * bytes0.len(),
                ;
            }
            i = i + 1;
        }
        proof {
            assert(i == n) by (nonlinear_arith)
                requires
                    n == (8 * bytes0.len() - st0) as int / 32,
                    st0 + i * 32 <= 8 * bytes0.len(),
                    8 * bytes0.len() - (st0 + i * 32) < 32,
            ;
        }
        Ok(())
    }

    /// Drains whole 8-byte little-endian `Double` values from `stream` into
    /// `queue`.  The stream's cursor must be byte-aligned, as it always is
    /// for a stream fed only to this decoder.
    pub fn unpack_doubles(stream: &mut ByteStreamReadBuffer, queue: &mut VecDeque<RecordValue>) -> (r:
        Result<(), Error>)
        requires
            old(stream).wf(),
        ensures
            final(stream).wf(),
            final(stream).bytes() == old(stream).bytes(),
            match r {
                Ok(()) => {
                    let n = old(stream).available() / 64;
                    &&& old(stream).start() % 8 == 0
                    &&& final(stream).start() == old(stream).start() + n * 64
                    &&& final(stream).available() < 64
                    &&& final(queue)@ == old(queue)@ + Seq::new(
                        n as nat,
                        |j: int| double_at(old(stream).bytes(), old(stream).start() / 8, j as nat),
                    )
                },
                Err(e) => {
                    &&& e == Error::Internal
                    &&& old(stream).start() % 8 != 0
                    &&& final(stream).start() == old(stream).start()
                    &&& final(queue)@ == old(queue)@
                },
            },
    {
        if !stream.is_byte_aligned() {
            return Err(Error::Internal);
        }
        let ghost bytes0 = stream.bytes();
        let ghost st0 = stream.start();
        let ghost b0 = st0 / 8;
        let ghost q0 = queue@;
        let ghost n = (8 * bytes0.len() - st0) / 64;
        let mut i: u64 = 0;
        while stream.available_bits() >= 64
            invariant
                stream.wf(),
                stream.bytes() == bytes0,
                st0 % 8 == 0,
                b0 == st0 / 8,
                stream.start() == st0 + i * 64,
                st0 + i * 64 <= 8 * bytes0.len(),
                n == (8 * bytes0.len() - st0) as int / 64,
                i <= n,
                queue@ == q0 + Seq::new(i as nat, |j: int| double_at(bytes0, b0, j as nat)),
            decreases 8 * bytes0.len() - st0 - i * 64,
        {
            proof {
                assert((st0 + i * 64) % 8 == 0) by (nonlinear_arith)
                    requires
                        st0 % 8 == 0,
                ;
                assert((st0 + i * 64) / 8 + 8 <= bytes0.len() && (st0 + i * 64) / 8 == b0 + 8 * i)
                    by (nonlinear_arith)
                    requires
                        st0 % 8 == 0,
                        b0 == st0 / 8,
                        (st0 + i * 64) % 8 == 0,
                        st0 + i * 64 + 64 <= 8 * bytes0.len(),
                ;
            }
            let chunk = match stream.consume_bytes(8) {
                Ok(v) => v,
                Err(_) => {
                    proof {
                        assert(false);
                    }
                    return Err(Error::Internal);
                },
            };
            let val = read_u64_le(&chunk, 0);
            proof {
                assert(chunk@.subrange(0, 8) =~= chunk@);
                assert(chunk@ == bytes0.subrange(
                    (b0 + 8 * i) as int,
                    (b0 + 8 * i + 8) as int,
                ));
            }
            queue.push_back(RecordValue::Double(val));
            proof {
                assert(Seq::new((i + 1) as nat, |j: int| double_at(bytes0, b0, j as nat))
                    =~= Seq::new(i as nat, |j: int| double_at(bytes0, b0, j as nat)).push(
                    double_at(bytes0, b0, i as nat),
                ));
                assert(queue@ =~= q0 + Seq::new(
                    (i + 1) as nat,
                    |j: int| double_at(bytes0, b0, j as nat),
                ));
                assert(i + 1 <= n && (st0 + (i + 1) * 64 <= 8 * bytes0.len())) by (nonlinear_arith)
                    requires
                        n == (8 * bytes0.len() - st0) as int / 64,
                        st0 + i * 64 + 64 <= 8 * bytes0.len(),
                ;
            }
            i = i + 1;
        }
        proof {
            assert(i == n) by (nonlinear_arith)
                requires
                    n == (8 * bytes0.len() - st0) as int / 64,
                    st0 + i * 64 <= 8 * bytes0.len(),
                    8 * bytes0.len() - (st0 + i * 64) < 64,
            ;
        }
        Ok(())
    }

    /// Drains bit-packed `Integer` values spanning `[min, max]` from
    /// `stream` into `queue`.
    pub fn unpack_ints(
        stream: &mut ByteStreamReadBuffer,
        min: i64,
        max: i64,
        queue: &mut VecDeque<RecordValue>,
    ) -> (r: Result<(), Error>)
        requires
            old(stream).wf(),
        ensures
            final(stream).wf(),
            final(stream).bytes() == old(stream).bytes(),
            final(queue)@.len() >= old(queue)@.len(),
            final(queue)@.subrange(0, old(queue)@.len() as int) == old(queue)@,
            forall|j: int|
                old(queue)@.len() <= j < final(queue)@.len() ==> int_in_range(
                    #[trigger] final(queue)@[j],
                    min,
                    max,
                ),
            unpack_int_result(
                r,
                *old(stream),
                *final(stream),
                old(queue)@,
                final(queue)@,
                min,
                max,
                false,
            ),
    {
        unpack_packed_ints(stream, min, max, false, queue)
    }

    /// Drains bit-packed `ScaledInteger` values spanning `[min, max]` from
    /// `stream` into `queue`; the raw integer is preserved, scaling is the
    /// consumer's concern.
    pub fn unpack_scaled_ints(
        stream: &mut ByteStreamReadBuffer,
        min: i64,
        max: i64,
        queue: &mut VecDeque<RecordValue>,
    ) -> (r: Result<(), Error>)
        requires
            old(stream).wf(),
        ensures
            final(stream).wf(),
            final(stream).bytes() == old(stream).bytes(),
            final(queue)@.len() >= old(queue)@.len(),
            final(queue)@.subrange(0, old(queue)@.len() as int) == old(queue)@,
            forall|j: int|
                old(queue)@.len() <= j < final(queue)@.len() ==> scaled_in_range(
                    #[trigger] final(queue)@[j],
                    min,
                    max,
                ),
            unpack_int_result(
                r,
                *old(stream),
                *final(stream),
                old(queue)@,
                final(queue)@,
                min,
                max,
                true,
            ),
    {
        unpack_packed_ints(stream, min, max, true, queue)
    }
}

/// Full account of one integer unpacking call: on success the stream was
/// drained chunk by chunk and the queue extended with each chunk's decoded
/// value; each error names exactly the circumstance that raises it.
pub open spec fn unpack_int_result(
    r: Result<(), Error>,
    s0: ByteStreamReadBuffer,
    s1: ByteStreamReadBuffer,
    q0: Seq<RecordValue>,
    q1: Seq<RecordValue>,
    min: i64,
    max: i64,
    scaled: bool,
) -> bool {
    match r {
        Ok(()) => int_range_valid(min, max) && {
            let bits = int_bits(min, max);
            if bits == 0 {
                s1.start() == s0.start() && q1 == q0
            } else {
                let n = s0.available() / bits as int;
                &&& s1.start() == s0.start() + n * bits
                &&& s1.available() < bits
                &&& q1 == q0 + Seq::new(
                    n as nat,
                    |j: int| int_value_at(s0.bytes(), s0.start(), bits, min, scaled, j as nat),
                )
                &&& forall|j: int|
                    0 <= j < n ==> #[trigger] int_chunk(s0.bytes(), s0.start(), bits, j as nat)
                        <= max - min
            }
        },
        Err(e) => {
            ||| (e == Error::InvalidFile(InvalidFileKind::InvertedRange) && min > max && s1.start()
                == s0.start() && q1 == q0)
            ||| (e == Error::InvalidFile(InvalidFileKind::RangeTooLarge) && min <= max && max - min
                >= 0x8000000000000000 && s1.start() == s0.start() && q1 == q0)
            ||| (e == Error::InvalidFile(InvalidFileKind::ValueOutOfRange) && int_range_valid(
                min,
                max,
            ) && int_bits(min, max) > 0 && exists|j: int|
                0 <= j < s0.available() / int_bits(min, max) as int && #[trigger] int_chunk(
                    s0.bytes(),
                    s0.start(),
                    int_bits(min, max),
                    j as nat,
                ) > max - min)
        },
    }
}

/// Shared loop of the two integer decoders.
fn unpack_packed_ints(
    stream: &mut ByteStreamReadBuffer,
    min: i64,
    max: i64,
    scaled: bool,
    queue: &mut VecDeque<RecordValue>,
) -> (r: Result<(), Error>)
    requires
        old(stream).wf(),
    ensures
        final(stream).wf(),
        final(stream).bytes() == old(stream).bytes(),
        final(queue)@.len() >= old(queue)@.len(),
        final(queue)@.subrange(0, old(queue)@.len() as int) == old(queue)@,
        forall|j: int|
            old(queue)@.len() <= j < final(queue)@.len() ==> (if scaled {
                scaled_in_range(#[trigger] final(queue)@[j], min, max)
            } else {
                int_in_range(#[trigger] final(queue)@[j], min, max)
            }),
        unpack_int_result(r, *old(stream), *final(stream), old(queue)@, final(queue)@, min, max, scaled),
{
    if min > max {
        proof {
            assert(queue@.subrange(0, old(queue)@.len() as int) =~= old(queue)@);
        }
        return Err(Error::InvalidFile(InvalidFileKind::InvertedRange));
    }
    let range: i128 = max as i128 - min as i128;
    if range >= 0x8000000000000000i128 {
        proof {
            assert(queue@.subrange(0, old(queue)@.len() as int) =~= old(queue)@);
        }
        return Err(Error::InvalidFile(InvalidFileKind::RangeTooLarge));
    }
    let ru: u64 = range as u64;
    let bits: u64 = bit_width_exec(ru);
    proof {
        assert(bits as nat == int_bits(min, max));
        lemma_pow2n_is_pow2(63);
        vstd::arithmetic::power2::lemma2_to64();
        vstd::arithmetic::power2::lemma2_to64_rest();
        lemma_bit_width_le(ru as nat, 63);
        crate::bits::lemma_bit_width_bound(ru as nat);
    }
    if bits == 0 {
        proof {
            assert(queue@.subrange(0, old(queue)@.len() as int) =~= old(queue)@);
        }
        return Ok(());
    }
    let ghost bytes0 = stream.bytes();
    let ghost st0 = stream.start();
    let ghost q0 = queue@;
    let ghost n = (8 * bytes0.len() - st0) / bits as int;
    let mut i: u64 = 0;
    while stream.available_bits() >= bits
        invariant
            stream.wf(),
            stream.bytes() == bytes0,
            0 < bits <= 63,
            bits as nat == int_bits(min, max),
            int_range_valid(min, max),
            ru == max - min,
            (ru as nat) < pow2n(bits as nat),
            stream.start() == st0 + i * bits,
            st0 + i * bits <= 8 * bytes0.len(),
            n == (8 * bytes0.len() - st0) as int / bits as int,
            i <= n,
            queue@ == q0 + Seq::new(
                i as nat,
                |j: int| int_value_at(bytes0, st0, bits as nat, min, scaled, j as nat),
            ),
            forall|j: int|
                0 <= j < i ==> #[trigger] int_chunk(bytes0, st0, bits as nat, j as nat) <= max
                    - min,
            q0 == old(queue)@,
            bytes0 == old(stream).bytes(),
            st0 == old(stream).start(),
            old(stream).wf(),
        decreases 8 * bytes0.len() - st0 - i * bits,
    {
        let raw = stream.consume_bits(bits);
        proof {
            assert(raw as nat == int_chunk(bytes0, st0, bits as nat, i as nat));
            crate::bits::lemma_bits_of_bound(bytes0, st0 + i as nat * bits as nat, bits as nat);
        }
        if raw > ru {
            proof {
                assert(queue@.subrange(0, q0.len() as int) =~= q0);
                assert(0 <= i < n && int_chunk(bytes0, st0, bits as nat, i as nat) > max - min)
                    by (nonlinear_arith)
                    requires
                        raw as nat == int_chunk(bytes0, st0, bits as nat, i as nat),
                        raw > ru,
                        ru == max - min,
                        n == (8 * bytes0.len() - st0) as int / bits as int,
                        st0 + i * bits + bits <= 8 * bytes0.len(),
                        0 < bits,
                        i >= 0,
                ;
                assert(exists|j: int|
                    0 <= j < (8 * bytes0.len() - st0) as int / int_bits(min, max) as int
                        && #[trigger] int_chunk(bytes0, st0, int_bits(min, max), j as nat) > max
                        - min) by {
                    let w: int = i as int;
                    assert(int_bits(min, max) as int == bits as int);
                    assert(0 <= w);
                    assert(w < (8 * bytes0.len() - st0) as int / int_bits(min, max) as int);
                    assert(w as nat == i as nat);
                    assert(int_chunk(bytes0, st0, int_bits(min, max), w as nat) > max - min);
                }
            }
            return Err(Error::InvalidFile(InvalidFileKind::ValueOutOfRange));
        }
        let v: i64 = min + raw as i64;
        queue.push_back(
            if scaled {
                RecordValue::ScaledInteger(v)
            } else {
                RecordValue::Integer(v)
            },
        );
        proof {
            assert(int_value_at(bytes0, st0, bits as nat, min, scaled, i as nat) == (if scaled {
                RecordValue::ScaledInteger(v)
            } else {
                RecordValue::Integer(v)
            }));
            assert(Seq::new(
                (i + 1) as nat,
                |j: int| int_value_at(bytes0, st0, bits as nat, min, scaled, j as nat),
            ) =~= Seq::new(
                i as nat,
                |j: int| int_value_at(bytes0, st0, bits as nat, min, scaled, j as nat),
            ).push(int_value_at(bytes0, st0, bits as nat, min, scaled, i as nat)));
            assert(queue@ =~= q0 + Seq::new(
                (i + 1) as nat,
                |j: int| int_value_at(bytes0, st0, bits as nat, min, scaled, j as nat),
            ));
            assert((i + 1) * bits == i * bits + bits) by (nonlinear_arith);
            assert(i + 1 <= n && st0 + (i + 1) * bits <= 8 * bytes0.len()) by (nonlinear_arith)
                requires
                    n == (8 * bytes0.len() - st0) as int / bits as int,
                    st0 + i * bits + bits <= 8 * bytes0.len(),
                    0 < bits,
            ;
        }
        i = i + 1;
    }
    proof {
        assert(i == n) by (nonlinear_arith)
            requires
                n == (8 * bytes0.len() - st0) as int / bits as int,
                st0 + i * bits <= 8 * bytes0.len(),
                8 * bytes0.len() - (st0 + i * bits) < bits,
                0 < bits,
        ;
        assert(queue@.subrange(0, q0.len() as int) =~= q0);
    }
    Ok(())
}

} // verus!
