//! The CRC-16 that closes every HCA header and block.
//!
//! Polynomial 0x8005, initial value 0, most significant bit first, no final
//! xor. Appending a value's checksum big-endian makes the checksum of the
//! whole zero, which is how blocks are checked.

use crate::reader::be16_bytes;
use vstd::prelude::*;

verus! {

/// One bit step of the register.
pub open spec fn crc_round(c: u16) -> u16 {
    if c & 0x8000u16 != 0 {
        ((c << 1u16) ^ 0x8005u16) as u16
    } else {
        (c << 1u16) as u16
    }
}

/// `n` bit steps.
pub open spec fn crc_rounds(c: u16, n: int) -> u16
    decreases n,
{
    if n <= 0 {
        c
    } else {
        crc_round(crc_rounds(c, n - 1))
    }
}

/// The register after one more byte.
pub open spec fn crc_byte(c: u16, b: u8) -> u16 {
    crc_rounds(c ^ ((b as u16) << 8u16), 8)
}

/// Checksum of a byte sequence.
pub open spec fn crc16(s: Seq<u8>) -> u16
    decreases s.len(),
{
    if s.len() == 0 {
        0
    } else {
        crc_byte(crc16(s.drop_last()), s.last())
    }
}

/// Checksum of a byte slice.
pub fn crc16_checksum(data: &[u8]) -> (r: u16)
    ensures
        r == crc16(data@),
{
    let mut sum: u16 = 0;
    let mut i: usize = 0;
    while i < data.len()
        invariant
            i <= data@.len(),
            sum == crc16(data@.take(i as int)),
        decreases data@.len() - i,
    {
        proof {
            assert(data@.take(i + 1).drop_last() =~= data@.take(i as int));
        }
        let mut c: u16 = sum ^ ((data[i] as u16) << 8);
        let ghost c0 = c;
        let mut k: usize = 0;
        while k < 8
            invariant
                k <= 8,
                c == crc_rounds(c0, k as int),
            decreases 8 - k,
        {
            if c & 0x8000 != 0 {
                c = (c << 1) ^ 0x8005;
            } else {
                c = c << 1;
            }
            k = k + 1;
        }
        sum = c;
        i = i + 1;
    }
    proof {
        assert(data@.take(data@.len() as int) =~= data@);
    }
    sum
}

/// Appending a checksum, big-endian, to the bytes it was computed over
/// gives a checksum of zero.
pub proof fn law_crc_append_zero(s: Seq<u8>)
    ensures
        crc16(s + be16_bytes(crc16(s) as int)) == 0,
{
    let c = crc16(s);
    let t = s + be16_bytes(c as int);
    let hi = (c as int / 0x100 % 0x100) as u8;
    let lo = (c as int % 0x100) as u8;
    assert(t.drop_last().drop_last() =~= s);
    assert(t.drop_last().last() == hi);
    assert(t.last() == lo);
    assert(crc16(t.drop_last()) == crc_byte(crc16(t.drop_last().drop_last()), hi));
    assert(crc16(t) == crc_byte(crc16(t.drop_last()), lo));
    assert(crc16(t) == crc_byte(crc_byte(c, hi), lo));
    lemma_crc_self_cancel(c, hi, lo);
}

/// Feeding a register its own value, high byte first, clears it.
proof fn lemma_crc_self_cancel(c: u16, hi: u8, lo: u8)
    requires
        hi as int == c as int / 0x100 % 0x100,
        lo as int == c as int % 0x100,
    ensures
        crc_byte(crc_byte(c, hi), lo) == 0,
{
    reveal_with_fuel(crc_rounds, 9);
    let h0 = c ^ ((hi as u16) << 8u16);
    let h1 = crc_round(h0);
    let h2 = crc_round(h1);
    let h3 = crc_round(h2);
    let h4 = crc_round(h3);
    let h5 = crc_round(h4);
    let h6 = crc_round(h5);
    let h7 = crc_round(h6);
    let h8 = crc_round(h7);
    assert(crc_byte(c, hi) == h8);
    let l0 = h8 ^ ((lo as u16) << 8u16);
    let l1 = crc_round(l0);
    let l2 = crc_round(l1);
    let l3 = crc_round(l2);
    let l4 = crc_round(l3);
    let l5 = crc_round(l4);
    let l6 = crc_round(l5);
    let l7 = crc_round(l6);
    let l8 = crc_round(l7);
    assert(crc_byte(h8, lo) == l8);
    assert(hi == (c >> 8u16) as u8 && lo == (c & 0xFFu16) as u8) by (bit_vector)
        requires
            hi as int == c as int / 0x100 % 0x100,
            lo as int == c as int % 0x100,
    ;
    assert(l8 == 0) by (bit_vector)
        requires
            hi == (c >> 8u16) as u8,
            lo == (c & 0xFFu16) as u8,
            h0 == c ^ ((hi as u16) << 8u16),
            h1 == crc_round(h0),
            h2 == crc_round(h1),
            h3 == crc_round(h2),
            h4 == crc_round(h3),
            h5 == crc_round(h4),
            h6 == crc_round(h5),
            h7 == crc_round(h6),
            h8 == crc_round(h7),
            l0 == h8 ^ ((lo as u16) << 8u16),
            l1 == crc_round(l0),
            l2 == crc_round(l1),
            l3 == crc_round(l2),
            l4 == crc_round(l3),
            l5 == crc_round(l4),
            l6 == crc_round(l5),
            l7 == crc_round(l6),
            l8 == crc_round(l7),
    ;
}

} // verus!
