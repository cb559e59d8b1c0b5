//! CRC-32C (Castagnoli) checksum, as used by the page trailers of the paged
//! file envelope: reflected polynomial `0x82F63B78`, initial state
//! `0xFFFFFFFF`, final complement.

use vstd::prelude::*;

verus! {

/// Reflected form of the Castagnoli generator polynomial.
pub const CRC32C_POLY: u32 = 0x82F63B78;

/// One shift-and-conditionally-xor step of the bitwise CRC computation.
pub open spec fn crc_step(c: u32) -> u32 {
    if c & 1 == 1 {
        (c >> 1) ^ CRC32C_POLY
    } else {
        c >> 1
    }
}

/// `k` successive `crc_step`s.
pub open spec fn crc_steps(c: u32, k: nat) -> u32
    decreases k,
{
    if k == 0 {
        c
    } else {
        crc_steps(crc_step(c), (k - 1) as nat)
    }
}

/// Folds one byte into the CRC state.
pub open spec fn crc_byte(c: u32, b: u8) -> u32 {
    crc_steps(c ^ b as u32, 8)
}

/// The CRC state after folding the first `n` bytes of `s`.
pub open spec fn crc_state(s: Seq<u8>, n: nat) -> u32
    decreases n,
{
    if n == 0 {
        0xFFFFFFFFu32
    } else {
        crc_byte(crc_state(s, (n - 1) as nat), s[n - 1])
    }
}

/// The CRC-32C checksum of a byte sequence.
pub open spec fn crc32(s: Seq<u8>) -> u32 {
    crc_state(s, s.len()) ^ 0xFFFFFFFFu32
}

/// Computes the CRC-32C checksum of `data[start .. start + len]`.
pub fn crc32_range(data: &Vec<u8>, start: usize, len: usize) -> (r: u32)
    requires
        start + len <= data@.len(),
    ensures
        r == crc32(data@.subrange(start as int, start as int + len as int)),
{
    let n = data.len();
    let ghost s = data@.subrange(start as int, start as int + len as int);
    let mut c: u32 = 0xFFFFFFFF;
    let mut i: usize = 0;
    while i < len
        invariant
            i <= len,
            start + len <= n,
            n == data@.len(),
            s == data@.subrange(start as int, start as int + len as int),
            c == crc_state(s, i as nat),
        decreases len - i,
    {
        let mut b: u32 = c ^ data[start + i] as u32;
        proof {
            assert(s[i as int] == data@[start as int + i as int]);
        }
        let ghost c0: u32 = c ^ s[i as int] as u32;
        let mut k: usize = 0;
        while k < 8
            invariant
                k <= 8,
                b == crc_steps(c0, k as nat),
            decreases 8 - k,
        {
            proof {
                lemma_crc_steps_add(c0, k as nat, 1);
                let m = crc_steps(c0, k as nat);
                assert(crc_steps(m, 1) == crc_steps(crc_step(m), 0));
                assert(crc_steps(crc_step(m), 0) == crc_step(m));
            }
            b = if b & 1 == 1 {
                (b >> 1) ^ CRC32C_POLY
            } else {
                b >> 1
            };
            k = k + 1;
        }
        proof {
            assert(crc_state(s, (i + 1) as nat) == crc_byte(crc_state(s, i as nat), s[i as int]));
        }
        c = b;
        i = i + 1;
    }
    c ^ 0xFFFFFFFF
}

proof fn lemma_crc_steps_add(c: u32, a: nat, b: nat)
    ensures
        crc_steps(crc_steps(c, a), b) == crc_steps(c, a + b),
    decreases a,
{
    if a > 0 {
        lemma_crc_steps_add(crc_step(c), (a - 1) as nat, b);
    }
}

} // verus!
