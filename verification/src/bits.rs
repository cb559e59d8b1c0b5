//! Bit-level and little-endian byte-level views of byte sequences.
//!
//! The compressed-vector wire encoding packs values little-endian: within
//! each byte, bit 0 is the least significant bit, and a value spans bytes
//! starting at the low-order bits of the current byte and continuing into the
//! next byte.  `bits_of` is the mathematical reading of such a bit run;
//! `le_u16` / `le_u32` / `le_u64` are the usual little-endian integer
//! readings of 2, 4 and 8 bytes.

use vstd::prelude::*;

verus! {

/// `2^k`.
pub open spec fn pow2n(k: nat) -> nat
    decreases k,
{
    if k == 0 {
        1
    } else {
        2 * pow2n((k - 1) as nat)
    }
}

pub proof fn lemma_pow2n_mono(a: nat, b: nat)
    requires
        a <= b,
    ensures
        pow2n(a) <= pow2n(b),
    decreases b,
{
    if a < b {
        lemma_pow2n_mono(a, (b - 1) as nat);
    }
}

pub proof fn lemma_pow2n_is_pow2(k: nat)
    ensures
        pow2n(k) == vstd::arithmetic::power2::pow2(k),
    decreases k,
{
    if k == 0 {
        vstd::arithmetic::power2::lemma2_to64();
    } else {
        lemma_pow2n_is_pow2((k - 1) as nat);
        vstd::arithmetic::power2::lemma_pow2_unfold(k);
    }
}

/// Number of bits needed to represent `n`: the least `w` with `n < 2^w`.
pub open spec fn bit_width(n: nat) -> nat
    decreases n,
{
    if n == 0 {
        0
    } else {
        1 + bit_width(n / 2)
    }
}

pub proof fn lemma_bit_width_bound(n: nat)
    ensures
        n < pow2n(bit_width(n)),
    decreases n,
{
    if n > 0 {
        lemma_bit_width_bound(n / 2);
        assert(n == 2 * (n / 2) + n % 2) by (nonlinear_arith);
    }
}

pub proof fn lemma_bit_width_le(n: nat, k: nat)
    requires
        n < pow2n(k),
    ensures
        bit_width(n) <= k,
    decreases n,
{
    if n > 0 {
        if k == 0 {
            assert(false);
        } else {
            assert(n == 2 * (n / 2) + n % 2) by (nonlinear_arith);
            assert(n / 2 < pow2n((k - 1) as nat));
            lemma_bit_width_le(n / 2, (k - 1) as nat);
        }
    }
}

/// Bit `i` of a byte sequence: bit `i % 8` (least significant bit first) of
/// byte `i / 8`.
pub open spec fn bit_at(s: Seq<u8>, i: nat) -> u64 {
    ((s[(i / 8) as int] as u64) >> ((i % 8) as u64)) & 1
}

pub proof fn lemma_bit_at_le_1(s: Seq<u8>, i: nat)
    ensures
        bit_at(s, i) <= 1,
{
    let b = s[(i / 8) as int] as u64;
    let sh = (i % 8) as u64;
    assert((b >> sh) & 1 <= 1) by (bit_vector);
}

/// The unsigned integer held by the `k` bits starting at bit position
/// `start`, least significant bit first.
pub open spec fn bits_of(s: Seq<u8>, start: nat, k: nat) -> nat
    decreases k,
{
    if k == 0 {
        0
    } else {
        bit_at(s, start) as nat + 2 * bits_of(s, start + 1, (k - 1) as nat)
    }
}

pub proof fn lemma_bits_of_bound(s: Seq<u8>, start: nat, k: nat)
    ensures
        bits_of(s, start, k) < pow2n(k),
    decreases k,
{
    if k == 0 {
    } else {
        lemma_bits_of_bound(s, start + 1, (k - 1) as nat);
        lemma_bit_at_le_1(s, start);
    }
}

/// Little-endian reading of 2 bytes.
pub open spec fn le_u16(s: Seq<u8>) -> u16 {
    (s[0] as int + s[1] as int * 0x100) as u16
}

/// Little-endian reading of 4 bytes.
pub open spec fn le_u32(s: Seq<u8>) -> u32 {
    (s[0] as int + s[1] as int * 0x100 + s[2] as int * 0x10000 + s[3] as int * 0x1000000) as u32
}

/// Little-endian reading of 8 bytes.
pub open spec fn le_u64(s: Seq<u8>) -> u64 {
    (s[0] as int + s[1] as int * 0x100 + s[2] as int * 0x10000 + s[3] as int * 0x1000000
        + s[4] as int * 0x100000000 + s[5] as int * 0x10000000000
        + s[6] as int * 0x1000000000000 + s[7] as int * 0x100000000000000) as u64
}

/// The 4 little-endian bytes of a 32-bit value.
pub open spec fn u32_le_bytes(x: u32) -> Seq<u8> {
    seq![
        (x as nat % 0x100) as u8,
        (x as nat / 0x100 % 0x100) as u8,
        (x as nat / 0x10000 % 0x100) as u8,
        (x as nat / 0x1000000 % 0x100) as u8,
    ]
}

/// The 8 little-endian bytes of a 64-bit value.
pub open spec fn u64_le_bytes(x: u64) -> Seq<u8> {
    seq![
        (x as nat % 0x100) as u8,
        (x as nat / 0x100 % 0x100) as u8,
        (x as nat / 0x10000 % 0x100) as u8,
        (x as nat / 0x1000000 % 0x100) as u8,
        (x as nat / 0x100000000 % 0x100) as u8,
        (x as nat / 0x10000000000 % 0x100) as u8,
        (x as nat / 0x1000000000000 % 0x100) as u8,
        (x as nat / 0x100000000000000 % 0x100) as u8,
    ]
}

/// Law: serializing a 32-bit value little-endian and reading the bytes back
/// reproduces the value exactly.
pub proof fn lemma_u32_le_round_trip(x: u32)
    ensures
        le_u32(u32_le_bytes(x)) == x,
{
    assert(x as nat % 0x100 + (x as nat / 0x100 % 0x100) * 0x100 + (x as nat / 0x10000 % 0x100)
        * 0x10000 + (x as nat / 0x1000000 % 0x100) * 0x1000000 == x as nat) by (bit_vector);
}

/// Law: reading 4 bytes little-endian and serializing the value back
/// reproduces the bytes exactly.  For `Single` fields the decoder emits the
/// value read this way, so re-serializing an emitted value recovers the
/// source bit pattern.
pub proof fn lemma_u32_le_bytes_round_trip(s: Seq<u8>)
    requires
        s.len() == 4,
    ensures
        u32_le_bytes(le_u32(s)) == s,
{
    let a = s[0] as u32;
    let b = s[1] as u32;
    let c = s[2] as u32;
    let d = s[3] as u32;
    let x = le_u32(s);
    assert(x == (a + b * 0x100 + c * 0x10000 + d * 0x1000000) as u32);
    assert({
        let x = (a + b * 0x100 + c * 0x10000 + d * 0x1000000) as u32;
        x as nat % 0x100 == a && x as nat / 0x100 % 0x100 == b && x as nat / 0x10000 % 0x100 == c
            && x as nat / 0x1000000 % 0x100 == d
    }) by (bit_vector)
        requires
            a < 0x100 && b < 0x100 && c < 0x100 && d < 0x100,
    ;
    assert(u32_le_bytes(x) =~= s);
}

/// Law: serializing a 64-bit value little-endian and reading the bytes back
/// reproduces the value exactly.
pub proof fn lemma_u64_le_round_trip(x: u64)
    ensures
        le_u64(u64_le_bytes(x)) == x,
{
    assert(x as nat % 0x100 + (x as nat / 0x100 % 0x100) * 0x100 + (x as nat / 0x10000 % 0x100)
        * 0x10000 + (x as nat / 0x1000000 % 0x100) * 0x1000000 + (x as nat / 0x100000000 % 0x100)
        * 0x100000000 + (x as nat / 0x10000000000 % 0x100) * 0x10000000000 + (x as nat
        / 0x1000000000000 % 0x100) * 0x1000000000000 + (x as nat / 0x100000000000000 % 0x100)
        * 0x100000000000000 == x as nat) by (bit_vector);
}

/// Law: reading 8 bytes little-endian and serializing the value back
/// reproduces the bytes exactly.  For `Double` fields the decoder emits the
/// value read this way, so re-serializing an emitted value recovers the
/// source bit pattern.
pub proof fn lemma_u64_le_bytes_round_trip(s: Seq<u8>)
    requires
        s.len() == 8,
    ensures
        u64_le_bytes(le_u64(s)) == s,
{
    let a = s[0] as u64;
    let b = s[1] as u64;
    let c = s[2] as u64;
    let d = s[3] as u64;
    let e = s[4] as u64;
    let f = s[5] as u64;
    let g = s[6] as u64;
    let h = s[7] as u64;
    let x = le_u64(s);
    assert(x == (a + b * 0x100 + c * 0x10000 + d * 0x1000000 + e * 0x100000000 + f * 0x10000000000
        + g * 0x1000000000000 + h * 0x100000000000000) as u64);
    assert({
        let x = (a + b * 0x100 + c * 0x10000 + d * 0x1000000 + e * 0x100000000 + f
            * 0x10000000000 + g * 0x1000000000000 + h * 0x100000000000000) as u64;
        x as nat % 0x100 == a && x as nat / 0x100 % 0x100 == b && x as nat / 0x10000 % 0x100 == c
            && x as nat / 0x1000000 % 0x100 == d && x as nat / 0x100000000 % 0x100 == e && x as nat
            / 0x10000000000 % 0x100 == f && x as nat / 0x1000000000000 % 0x100 == g && x as nat
            / 0x100000000000000 % 0x100 == h
    }) by (bit_vector)
        requires
            a < 0x100 && b < 0x100 && c < 0x100 && d < 0x100 && e < 0x100 && f < 0x100 && g
                < 0x100 && h < 0x100,
    ;
    assert(u64_le_bytes(x) =~= s);
}

/// Reads the 2 bytes at `off` as a little-endian 16-bit value.
pub fn read_u16_le(v: &Vec<u8>, off: usize) -> (r: u16)
    requires
        off + 2 <= v@.len(),
    ensures
        r == le_u16(v@.subrange(off as int, off as int + 2)),
{
    let n = v.len();
    let r = v[off] as u16 + v[off + 1] as u16 * 0x100;
    proof {
        let s = v@.subrange(off as int, off as int + 2);
        assert(s[0] == v@[off as int]);
        assert(s[1] == v@[off as int + 1]);
    }
    r
}

/// Reads the 4 bytes at `off` as a little-endian 32-bit value.
pub fn read_u32_le(v: &Vec<u8>, off: usize) -> (r: u32)
    requires
        off + 4 <= v@.len(),
    ensures
        r == le_u32(v@.subrange(off as int, off as int + 4)),
{
    let n = v.len();
    let r = v[off] as u32 + v[off + 1] as u32 * 0x100 + v[off + 2] as u32 * 0x10000 + v[off
        + 3] as u32 * 0x1000000;
    proof {
        let s = v@.subrange(off as int, off as int + 4);
        assert(s[0] == v@[off as int]);
        assert(s[1] == v@[off as int + 1]);
        assert(s[2] == v@[off as int + 2]);
        assert(s[3] == v@[off as int + 3]);
    }
    r
}

/// Reads the 8 bytes at `off` as a little-endian 64-bit value.
pub fn read_u64_le(v: &Vec<u8>, off: usize) -> (r: u64)
    requires
        off + 8 <= v@.len(),
    ensures
        r == le_u64(v@.subrange(off as int, off as int + 8)),
{
    let n = v.len();
    let r = v[off] as u64 + v[off + 1] as u64 * 0x100 + v[off + 2] as u64 * 0x10000 + v[off
        + 3] as u64 * 0x1000000 + v[off + 4] as u64 * 0x100000000 + v[off + 5] as u64
        * 0x10000000000 + v[off + 6] as u64 * 0x1000000000000 + v[off + 7] as u64
        * 0x100000000000000;
    proof {
        let s = v@.subrange(off as int, off as int + 8);
        assert(s[0] == v@[off as int]);
        assert(s[1] == v@[off as int + 1]);
        assert(s[2] == v@[off as int + 2]);
        assert(s[3] == v@[off as int + 3]);
        assert(s[4] == v@[off as int + 4]);
        assert(s[5] == v@[off as int + 5]);
        assert(s[6] == v@[off as int + 6]);
        assert(s[7] == v@[off as int + 7]);
    }
    r
}

/// Serializes a 32-bit value as its 4 little-endian bytes.
pub fn u32_to_le_vec(x: u32) -> (r: Vec<u8>)
    ensures
        r@ == u32_le_bytes(x),
{
    let mut r: Vec<u8> = Vec::new();
    r.push((x % 0x100) as u8);
    r.push((x / 0x100 % 0x100) as u8);
    r.push((x / 0x10000 % 0x100) as u8);
    r.push((x / 0x1000000 % 0x100) as u8);
    proof {
        assert(r@ =~= u32_le_bytes(x));
    }
    r
}

} // verus!
