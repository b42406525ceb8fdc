//! Bit-level reading and writing, most significant bit first.
//!
//! Bit `p` of a buffer is bit `7 - p % 8` of byte `p / 8`; bits past the end
//! of the buffer read as zero.

use vstd::arithmetic::power2::{lemma2_to64, lemma_pow2_unfold, pow2};
use vstd::bits::low_bits_mask;
use vstd::prelude::*;

verus! {

/// Bit `p` of the buffer (0 past its end).
pub open spec fn bit_at(d: Seq<u8>, p: int) -> int {
    if 0 <= p && p / 8 < d.len() {
        ((d[p / 8] >> ((7 - p % 8) as u8)) & 1u8) as int
    } else {
        0
    }
}

/// The `n` bits starting at `p`, read as an unsigned number.
pub open spec fn bits_value(d: Seq<u8>, p: int, n: int) -> int
    decreases n,
{
    if n <= 0 {
        0
    } else {
        bits_value(d, p, n - 1) * 2 + bit_at(d, p + n - 1)
    }
}

/// What `peek` returns: the next `bits` bits, or 0 for a width outside 1..=32.
pub open spec fn spec_peek(d: Seq<u8>, p: int, bits: int) -> int {
    if bits == 0 || bits > 32 {
        0
    } else {
        bits_value(d, p, bits)
    }
}

/// A `bits`-wide pattern read as two's complement.
pub open spec fn sign_extend(v: int, bits: int) -> int {
    if bits > 0 && v >= pow2((bits - 1) as nat) {
        v - pow2(bits as nat)
    } else {
        v
    }
}

/// Bit reader over a byte slice.
pub struct BitReader<'a> {
    data: &'a [u8],
    position: usize,
}

impl<'a> BitReader<'a> {
    /// The bytes being read.
    pub closed spec fn data(&self) -> Seq<u8> {
        self.data@
    }

    /// The current bit position.
    pub closed spec fn pos(&self) -> int {
        self.position as int
    }

    pub fn new(data: &'a [u8]) -> (r: Self)
        ensures
            r.data() == data@,
            r.pos() == 0,
    {
        BitReader { data, position: 0 }
    }

    /// Start at a byte offset.
    pub fn with_offset(data: &'a [u8], byte_offset: usize) -> (r: Self)
        requires
            byte_offset * 8 <= usize::MAX,
        ensures
            r.data() == data@,
            r.pos() == byte_offset * 8,
    {
        BitReader { data, position: byte_offset * 8 }
    }

    pub fn position(&self) -> (r: usize)
        ensures
            r == self.pos(),
    {
        self.position
    }

    pub fn set_position(&mut self, pos: usize)
        ensures
            final(self).data() == old(self).data(),
            final(self).pos() == pos,
    {
        self.position = pos;
    }

    /// Bit at a position, 0 past the end.
    fn check_bit(&self, bit_pos: usize) -> (r: u32)
        ensures
            r == bit_at(self.data(), bit_pos as int),
    {
        let byte_idx = bit_pos / 8;
        let bit_idx: u8 = (7 - (bit_pos % 8)) as u8;
        if byte_idx < self.data.len() {
            ((self.data[byte_idx] >> bit_idx) & 1) as u32
        } else {
            0
        }
    }

    /// The next `bits` bits without moving; 0 for a width outside 1..=32.
    pub fn peek(&self, bits: usize) -> (r: u32)
        requires
            1 <= bits <= 32 ==> self.pos() + bits - 1 <= usize::MAX,
        ensures
            r == spec_peek(self.data(), self.pos(), bits as int),
    {
        if bits == 0 || bits > 32 {
            return 0;
        }
        let mut value: u32 = 0;
        let mut i: usize = 0;
        proof {
            lemma2_to64();
        }
        while i < bits
            invariant
                1 <= bits <= 32,
                self.pos() + bits - 1 <= usize::MAX,
                i <= bits,
                value == bits_value(self.data(), self.pos(), i as int),
                value < pow2(i as nat),
            decreases bits - i,
        {
            let b = self.check_bit(self.position + i);
            proof {
                lemma_bit_bound(self.data(), self.pos() + i);
                lemma_pow2_unfold((i + 1) as nat);
                lemma2_to64();
                assert(value <= 0x7FFF_FFFF);
                lemma_shift_or(value, b);
            }
            value = (value << 1) | b;
            i = i + 1;
        }
        value
    }

    /// Read `bits` bits and move past them.
    pub fn read(&mut self, bits: usize) -> (r: u32)
        requires
            old(self).pos() + bits <= usize::MAX,
        ensures
            final(self).data() == old(self).data(),
            r == spec_peek(old(self).data(), old(self).pos(), bits as int),
            final(self).pos() == old(self).pos() + bits,
    {
        let value = self.peek(bits);
        self.position = self.position + bits;
        value
    }

    /// Move past `bits` bits.
    pub fn skip(&mut self, bits: usize)
        requires
            old(self).pos() + bits <= usize::MAX,
        ensures
            final(self).data() == old(self).data(),
            final(self).pos() == old(self).pos() + bits,
    {
        self.position = self.position + bits;
    }

    /// Read one bit.
    pub fn read_bit(&mut self) -> (r: bool)
        requires
            old(self).pos() + 1 <= usize::MAX,
        ensures
            final(self).data() == old(self).data(),
            r == (bit_at(old(self).data(), old(self).pos()) != 0),
            final(self).pos() == old(self).pos() + 1,
    {
        let result = self.check_bit(self.position) != 0;
        self.position = self.position + 1;
        result
    }

    /// Bits left before the end of the buffer (0 when past it).
    pub fn remaining_bits(&self) -> (r: usize)
        requires
            self.data().len() * 8 <= usize::MAX,
        ensures
            r == spec_remaining_bits(self.data(), self.pos()),
    {
        let total_bits = self.data.len() * 8;
        if self.position >= total_bits {
            0
        } else {
            total_bits - self.position
        }
    }

    /// Whether at least `bits` bits remain.
    pub fn has_bits(&self, bits: usize) -> (r: bool)
        requires
            self.data().len() * 8 <= usize::MAX,
        ensures
            r == (bits <= spec_remaining_bits(self.data(), self.pos())),
    {
        self.remaining_bits() >= bits
    }

    /// Read `bits` bits as a two's-complement number.
    pub fn read_signed(&mut self, bits: usize) -> (r: i32)
        requires
            old(self).pos() + bits <= usize::MAX,
            bits <= 32,
            bits == 32 ==> spec_peek(old(self).data(), old(self).pos(), 32) < 0x8000_0000,
        ensures
            final(self).data() == old(self).data(),
            bits == 0 ==> r == 0 && final(self).pos() == old(self).pos(),
            bits > 0 ==> r == sign_extend(
                spec_peek(old(self).data(), old(self).pos(), bits as int),
                bits as int,
            ) && final(self).pos() == old(self).pos() + bits,
    {
        if bits == 0 {
            return 0;
        }
        let raw = self.read(bits);
        proof {
            lemma2_to64();
            lemma_bits_value_bound(old(self).data(), old(self).pos(), bits as int);
        }
        if bits == 32 {
            return raw as i32;
        }
        let value = raw as i32;
        let sign_bit: i32 = 1i32 << ((bits - 1) as u32);
        proof {
            lemma_sign_bit(raw, (bits - 1) as u32);
        }
        if value & sign_bit != 0 {
            let ext: i32 = (-1i32) << (bits as u32);
            proof {
                lemma_sign_extend_or(raw, bits as u32);
            }
            value | ext
        } else {
            value
        }
    }

    /// A 3-bit width, then a count of that width and a 4-bit resolution;
    /// (count + 1, resolution), or (0, 0) when the width is zero.
    pub fn read_scale_count(&mut self) -> (r: (u32, u32))
        requires
            old(self).pos() + 22 <= usize::MAX,
        ensures
            final(self).data() == old(self).data(),
            ({
                let d = old(self).data();
                let p = old(self).pos();
                let w = spec_peek(d, p, 3);
                if w == 0 {
                    r == (0u32, 0u32) && final(self).pos() == p + 3
                } else {
                    r.0 == spec_peek(d, p + 3, w) + 1 && r.1 == spec_peek(d, p + 3 + w, 4)
                        && final(self).pos() == p + 3 + w + 4
                }
            }),
    {
        let delta_bits = self.read(3);
        proof {
            lemma2_to64();
            lemma_bits_value_bound(old(self).data(), old(self).pos(), 3);
        }
        if delta_bits == 0 {
            return (0, 0);
        }
        let count = self.read(delta_bits as usize);
        proof {
            lemma_bits_value_bound(old(self).data(), old(self).pos() + 3, delta_bits as int);
        }
        let resolution = self.read(4);
        (count + 1, resolution)
    }

    /// Read `bits` bits; nonzero values come back one larger.
    pub fn read_off_by_one(&mut self, bits: usize) -> (r: u32)
        requires
            old(self).pos() + bits <= usize::MAX,
            spec_peek(old(self).data(), old(self).pos(), bits as int) < u32::MAX,
        ensures
            final(self).data() == old(self).data(),
            final(self).pos() == old(self).pos() + bits,
            ({
                let v = spec_peek(old(self).data(), old(self).pos(), bits as int);
                r == if v != 0 { v + 1 } else { 0 }
            }),
    {
        let value = self.read(bits);
        if value != 0 {
            value + 1
        } else {
            0
        }
    }
}

/// A bit is 0 or 1.
proof fn lemma_bit_bound(d: Seq<u8>, p: int)
    ensures
        0 <= bit_at(d, p) <= 1,
{
    if 0 <= p && p / 8 < d.len() {
        let b = d[p / 8];
        let k = (7 - p % 8) as u8;
        assert((b >> k) & 1u8 <= 1) by (bit_vector);
    }
}

/// `n` bits make a number below `2^n`.
pub proof fn lemma_bits_value_bound(d: Seq<u8>, p: int, n: int)
    requires
        n >= 0,
    ensures
        0 <= bits_value(d, p, n) < pow2(n as nat),
    decreases n,
{
    if n > 0 {
        lemma_bits_value_bound(d, p, n - 1);
        lemma_bit_bound(d, p + n - 1);
        lemma_pow2_unfold(n as nat);
        assert(bits_value(d, p, n) == bits_value(d, p, n - 1) * 2 + bit_at(d, p + n - 1));
        assert(pow2(n as nat) == 2 * pow2((n - 1) as nat));
    } else {
        vstd::arithmetic::power2::lemma_pow2_pos(0);
    }
}

proof fn lemma_shift_or(v: u32, b: u32)
    requires
        v <= 0x7FFF_FFFF,
        b <= 1,
    ensures
        (v << 1) | b == v * 2 + b,
{
    assert((v << 1) | b == v * 2 + b) by (bit_vector)
        requires
            v <= 0x7FFF_FFFF,
            b <= 1,
    ;
}

/// The sign bit of a value below `2^(k+1)`, for `k < 31`.
proof fn lemma_sign_bit(raw: u32, k: u32)
    requires
        k < 31,
        raw < pow2((k + 1) as nat),
    ensures
        (1i32 << k) as int == pow2(k as nat),
        ((raw as i32) & (1i32 << k) != 0) == (raw >= pow2(k as nat)),
        raw as i32 as int == raw as int,
{
    lemma2_to64();
    vstd::bits::lemma_u32_pow2_no_overflow((k + 1) as nat);
    vstd::bits::lemma_u32_shl_is_mul(1, k);
    let m: u32 = 1u32 << k;
    assert(raw < 0x8000_0000) by {
        lemma_pow2_mono_31((k + 1) as nat);
    }
    assert((1i32 << k) as int == (1u32 << k) as int) by (bit_vector)
        requires
            k < 31,
    ;
    assert(raw < 2 * m ==> ((raw as i32) & (1i32 << k) != 0) == (raw >= m)) by (bit_vector)
        requires
            k < 31,
            m == 1u32 << k,
            raw < 0x8000_0000,
    ;
    lemma_pow2_unfold((k + 1) as nat);
}

/// Powers of two up to `2^31`.
proof fn lemma_pow2_mono_31(n: nat)
    requires
        n <= 31,
    ensures
        pow2(n) <= 0x8000_0000,
{
    lemma2_to64();
    if n < 31 {
        vstd::arithmetic::power2::lemma_pow2_strictly_increases(n, 31);
    }
}

/// Setting the bits above `bits` subtracts `2^bits` from a value with its
/// sign bit set.
proof fn lemma_sign_extend_or(raw: u32, bits: u32)
    requires
        1 <= bits < 32,
        pow2((bits - 1) as nat) <= raw < pow2(bits as nat),
    ensures
        ((raw as i32) | ((-1i32) << bits)) as int == raw as int - pow2(bits as nat),
{
    lemma2_to64();
    vstd::bits::lemma_u32_pow2_no_overflow(bits as nat);
    vstd::bits::lemma_u32_shl_is_mul(1, bits);
    let m: u32 = 1u32 << bits;
    assert(raw < 0x8000_0000) by {
        lemma_pow2_mono_31(bits as nat);
    }
    assert(((raw as i32) | ((-1i32) << bits)) as int == raw as int - m as int) by (bit_vector)
        requires
            1 <= bits < 32,
            m == 1u32 << bits,
            raw < m,
            raw < 0x8000_0000,
    ;
}

/// Bits left in `d` from bit position `p`, zero past the end.
pub open spec fn spec_remaining_bits(d: Seq<u8>, p: int) -> int {
    if p >= d.len() * 8 {
        0
    } else {
        d.len() * 8 - p
    }
}

/// Bit `i` (from the top) of the `n`-bit pattern of `v`.
pub open spec fn value_bit(v: u32, n: int, i: int) -> int {
    ((v >> ((n - 1 - i) as u32)) & 1u32) as int
}

/// Bit writer into a fixed-size buffer; bits past its end are dropped.
pub struct BitWriter {
    data: Vec<u8>,
    position: usize,
}

impl BitWriter {
    /// The buffer.
    pub closed spec fn bytes(&self) -> Seq<u8> {
        self.data@
    }

    /// The current bit position.
    pub closed spec fn pos(&self) -> int {
        self.position as int
    }

    /// A zeroed buffer of `capacity` bytes.
    pub fn new(capacity: usize) -> (r: Self)
        ensures
            r.bytes() == Seq::new(capacity as nat, |i: int| 0u8),
            r.pos() == 0,
    {
        let mut data: Vec<u8> = Vec::new();
        let mut i: usize = 0;
        while i < capacity
            invariant
                i <= capacity,
                data@ == Seq::new(i as nat, |j: int| 0u8),
            decreases capacity - i,
        {
            data.push(0);
            i = i + 1;
            proof {
                assert(data@ =~= Seq::new(i as nat, |j: int| 0u8));
            }
        }
        BitWriter { data, position: 0 }
    }

    /// Write the low `bits` bits of `value`, most significant first; widths
    /// outside 1..=32 write nothing.
    pub fn write(&mut self, value: u32, bits: usize)
        requires
            old(self).pos() + bits <= usize::MAX,
        ensures
            final(self).bytes().len() == old(self).bytes().len(),
            bits == 0 || bits > 32 ==> final(self).bytes() == old(self).bytes() && final(self).pos()
                == old(self).pos(),
            1 <= bits <= 32 ==> {
                &&& final(self).pos() == old(self).pos() + bits
                &&& forall|p: int|
                    #![trigger bit_at(final(self).bytes(), p)]
                    0 <= p ==> bit_at(final(self).bytes(), p) == if old(self).pos() <= p
                        < old(self).pos() + bits && p / 8 < old(self).bytes().len() {
                        value_bit(value, bits as int, p - old(self).pos())
                    } else {
                        bit_at(old(self).bytes(), p)
                    }
            },
    {
        if bits == 0 || bits > 32 {
            return;
        }
        let ghost d0 = self.data@;
        let ghost p0 = self.position as int;
        let mut i: usize = 0;
        while i < bits
            invariant
                1 <= bits <= 32,
                p0 + bits <= usize::MAX,
                i <= bits,
                self.position == p0 + i,
                self.data@.len() == d0.len(),
                forall|p: int|
                    #![trigger bit_at(self.data@, p)]
                    0 <= p ==> bit_at(self.data@, p) == if p0 <= p < p0 + i && p / 8 < d0.len() {
                        value_bit(value, bits as int, p - p0)
                    } else {
                        bit_at(d0, p)
                    },
            decreases bits - i,
        {
            let bit = (value >> ((bits - 1 - i) as u32)) & 1;
            let byte_idx = self.position / 8;
            let bit_idx: u8 = (7 - (self.position % 8)) as u8;
            let ghost before = self.data@;
            if byte_idx < self.data.len() {
                let old_byte = self.data[byte_idx];
                let new_byte: u8 = if bit != 0 {
                    old_byte | (1u8 << bit_idx)
                } else {
                    old_byte & !(1u8 << bit_idx)
                };
                self.data.set(byte_idx, new_byte);
                proof {
                    lemma_set_bit(old_byte, new_byte, bit_idx, bit != 0);
                    assert(bit <= 1) by (bit_vector)
                        requires
                            bit == (value >> ((bits - 1 - i) as u32)) & 1,
                    ;
                    assert forall|p: int| 0 <= p implies #[trigger] bit_at(self.data@, p) == if p
                        == self.position {
                        bit as int
                    } else {
                        bit_at(before, p)
                    } by {
                        if p / 8 == byte_idx as int {
                            let j = (7 - p % 8) as u8;
                            assert(self.data@[p / 8] == new_byte);
                            assert(before[p / 8] == old_byte);
                            if p != self.position {
                                assert(j != bit_idx);
                                assert(((new_byte >> j) & 1u8) == ((old_byte >> j) & 1u8));
                            } else {
                                assert(j == bit_idx);
                            }
                        } else {
                            if p / 8 < self.data@.len() {
                                assert(self.data@[p / 8] == before[p / 8]);
                            }
                        }
                    }
                }
            }
            self.position = self.position + 1;
            i = i + 1;
        }
    }

    /// The buffer.
    pub fn data(&self) -> (r: &[u8])
        ensures
            r@ == self.bytes(),
    {
        self.data.as_slice()
    }

    /// The buffer, by value.
    pub fn into_vec(self) -> (r: Vec<u8>)
        ensures
            r@ == self.bytes(),
    {
        self.data
    }
}

/// Setting or clearing bit `k` of a byte changes that bit alone.
proof fn lemma_set_bit(b: u8, nb: u8, k: u8, set: bool)
    requires
        k < 8,
        nb == if set { b | (1u8 << k) } else { b & !(1u8 << k) },
    ensures
        ((nb >> k) & 1u8) as int == if set { 1int } else { 0int },
        forall|j: u8| j < 8 && j != k ==> #[trigger] ((nb >> j) & 1u8) == ((b >> j) & 1u8),
{
    if set {
        assert(nb == b | (1u8 << k));
        assert(((b | (1u8 << k)) >> k) & 1u8 == 1u8) by (bit_vector)
            requires
                k < 8,
        ;
        assert forall|j: u8| j < 8 && j != k implies #[trigger] ((nb >> j) & 1u8) == ((b >> j)
            & 1u8) by {
            assert(j < 8 && j != k ==> ((b | (1u8 << k)) >> j) & 1u8 == (b >> j) & 1u8)
                by (bit_vector)
                requires
                    k < 8,
            ;
        }
    } else {
        assert(nb == b & !(1u8 << k));
        assert(((b & !(1u8 << k)) >> k) & 1u8 == 0u8) by (bit_vector)
            requires
                k < 8,
        ;
        assert forall|j: u8| j < 8 && j != k implies #[trigger] ((nb >> j) & 1u8) == ((b >> j)
            & 1u8) by {
            assert(j < 8 && j != k ==> ((b & !(1u8 << k)) >> j) & 1u8 == (b >> j) & 1u8)
                by (bit_vector)
                requires
                    k < 8,
            ;
        }
    }
}

/// What the writer writes, a reader reads back: once the low `bits` bits
/// of `value` are written at bit `p` of a buffer that holds them all, the
/// `bits` bits at `p` read as `value mod 2^bits`.
pub proof fn law_write_then_read(before: Seq<u8>, after: Seq<u8>, p: int, value: u32, bits: int)
    requires
        1 <= bits <= 32,
        p >= 0,
        (p + bits - 1) / 8 < before.len(),
        forall|q: int|
            #![trigger bit_at(after, q)]
            0 <= q ==> bit_at(after, q) == if p <= q < p + bits && q / 8 < before.len() {
                value_bit(value, bits, q - p)
            } else {
                bit_at(before, q)
            },
    ensures
        bits_value(after, p, bits) == value as int % (pow2(bits as nat) as int),
        spec_peek(after, p, bits) == value as int % (pow2(bits as nat) as int),
{
    lemma_written_prefix(after, before, p, value, bits, bits);
    let m = low_bits_mask(bits as nat);
    vstd::bits::lemma_low_bits_mask_values();
    lemma2_to64();
    assert(value >> 0u32 == value) by (bit_vector);
    assert((bits - bits) as u32 == 0u32);
    let mb = low_bits_mask(bits as nat) as u32;
    assert(bits_value(after, p, bits) == (value & mb) as int);
    if bits < 32 {
        vstd::bits::lemma_u32_pow2_no_overflow(bits as nat);
        vstd::bits::lemma_u32_low_bits_mask_is_mod(value, bits as nat);
        let pm = pow2(bits as nat) as u32;
        assert(pm as int == pow2(bits as nat) as int);
        assert((value % pm) as int == value as int % (pm as int));
        assert((value & mb) == value % pm);
        assert(bits_value(after, p, bits) == value as int % (pm as int));
    } else {
        assert(value & 0xFFFF_FFFFu32 == value) by (bit_vector);
        assert(low_bits_mask(32) == 0xFFFF_FFFF);
        assert(pow2(32) == 0x1_0000_0000);
        assert(mb == 0xFFFF_FFFFu32);
        assert(bits_value(after, p, bits) == value as int);
        assert(value as int % 0x1_0000_0000int == value as int);
    }
}

/// The first `k` written bits read as the top `k` bits of the pattern.
proof fn lemma_written_prefix(after: Seq<u8>, before: Seq<u8>, p: int, value: u32, bits: int, k: int)
    requires
        1 <= bits <= 32,
        0 <= k <= bits,
        p >= 0,
        (p + bits - 1) / 8 < before.len(),
        forall|q: int|
            #![trigger bit_at(after, q)]
            0 <= q ==> bit_at(after, q) == if p <= q < p + bits && q / 8 < before.len() {
                value_bit(value, bits, q - p)
            } else {
                bit_at(before, q)
            },
    ensures
        bits_value(after, p, k) == ((value >> ((bits - k) as u32)) & (low_bits_mask(
            k as nat,
        ) as u32)) as int,
    decreases k,
{
    vstd::bits::lemma_low_bits_mask_values();
    if k == 0 {
        let s = bits as u32;
        assert(value >> s & 0u32 == 0u32) by (bit_vector);
    } else {
        lemma_written_prefix(after, before, p, value, bits, k - 1);
        let q = p + k - 1;
        assert(q / 8 < before.len()) by {
            assert(q <= p + bits - 1);
            assert(q / 8 <= (p + bits - 1) / 8) by (nonlinear_arith)
                requires
                    0 <= q <= p + bits - 1,
            ;
        }
        assert(bit_at(after, q) == value_bit(value, bits, k - 1));
        let s = (bits - k) as u32;
        let x = value >> s;
        let mm = low_bits_mask((k - 1) as nat) as u32;
        vstd::bits::lemma_low_bits_mask_unfold(k as nat);
        let mk: u32 = (mm * 2 + 1) as u32;
        assert(low_bits_mask(k as nat) as u32 == mk);
        let s1 = (bits - (k - 1)) as u32;
        assert(s1 == s + 1);
        assert(value >> s1 == x >> 1) by (bit_vector)
            requires
                s < 32,
                x == value >> s,
                s1 == s + 1,
        ;
        assert(mm <= 0x7FFF_FFFF);
        assert(((x >> 1) & mm) as int * 2 + (x & 1u32) as int == (x & mk) as int)
            by (bit_vector)
            requires
                mm <= 0x7FFF_FFFF,
                mk == mm * 2 + 1,
        ;
        assert(value_bit(value, bits, k - 1) == (x & 1u32) as int);
    }
}

} // verus!
