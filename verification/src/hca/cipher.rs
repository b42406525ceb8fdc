//! HCA cipher tables.
//!
//! A cipher table maps each byte of an encrypted block to its plain value.
//! Type 0 is the identity, type 1 a fixed scramble, type 56 a table derived
//! from a 56-bit key. Every table keeps 0x00 and 0xFF in place.

use vstd::prelude::*;

verus! {

/// Type 0: the identity table.
pub fn cipher_init_0(cipher_table: &mut [u8; 256])
    ensures
        forall|i: int| 0 <= i < 256 ==> final(cipher_table)@[i] == i,
{
    let mut i: usize = 0;
    while i < 256
        invariant
            i <= 256,
            cipher_table@.len() == 256,
            forall|j: int| 0 <= j < i ==> cipher_table@[j] == j,
        decreases 256 - i,
    {
        cipher_table[i] = i as u8;
        i = i + 1;
    }
}

/// One step of the type-1 generator: `v * 13 + 11` modulo 256, taken
/// twice when the first result is 0x00 or 0xFF.
pub open spec fn scramble_step(v: int) -> int {
    let w = (v * 13 + 11) % 256;
    if w == 0 || w == 255 {
        (w * 13 + 11) % 256
    } else {
        w
    }
}

/// The `i`-th value of the type-1 generator, starting from 0.
pub open spec fn scramble_value(i: int) -> int
    decreases i,
{
    if i <= 0 {
        0
    } else {
        scramble_step(scramble_value(i - 1))
    }
}

/// Type 1: entries 1..=254 hold the generator's values in order; 0 and 0xFF
/// map to themselves.
pub fn cipher_init_1(cipher_table: &mut [u8; 256])
    ensures
        final(cipher_table)@[0] == 0,
        final(cipher_table)@[255] == 255,
        forall|i: int| 1 <= i <= 254 ==> final(cipher_table)@[i] == scramble_value(i),
{
    let mul: u32 = 13;
    let add: u32 = 11;
    let mut v: u32 = 0;
    let mut i: usize = 1;
    while i < 255
        invariant
            1 <= i <= 255,
            mul == 13,
            add == 11,
            v == scramble_value(i - 1),
            v < 256,
            cipher_table@.len() == 256,
            forall|j: int| 1 <= j < i ==> cipher_table@[j] == scramble_value(j),
        decreases 255 - i,
    {
        let x = v * mul + add;
        v = x & 0xFF;
        proof {
            assert(x & 0xFF == x % 256) by (bit_vector);
        }
        if v == 0 || v == 0xFF {
            let y = v * mul + add;
            v = y & 0xFF;
            proof {
                assert(y & 0xFF == y % 256) by (bit_vector);
            }
        }
        cipher_table[i] = v as u8;
        i = i + 1;
    }
    cipher_table[0] = 0;
    cipher_table[0xFF] = 0xFF;
}

/// Map every byte through the table, in place.
pub fn cipher_decrypt(cipher_table: &[u8; 256], data: &mut [u8])
    ensures
        final(data)@.len() == old(data)@.len(),
        forall|i: int|
            0 <= i < old(data)@.len() ==> final(data)@[i] == cipher_table@[old(data)@[i] as int],
{
    let n = data.len();
    let mut i: usize = 0;
    while i < n
        invariant
            n == old(data)@.len(),
            data@.len() == n,
            i <= n,
            forall|j: int| 0 <= j < i ==> data@[j] == cipher_table@[old(data)@[j] as int],
            forall|j: int| i <= j < n ==> data@[j] == old(data)@[j],
        decreases n - i,
    {
        let b = data[i];
        data[i] = cipher_table[b as usize];
        i = i + 1;
    }
}

/// Multiplier of the type-56 row/column generator.
pub open spec fn lcg_mul(key: u8) -> u8 {
    ((key & 1) << 3u8) | 5
}

/// Increment of the type-56 row/column generator.
pub open spec fn lcg_add(key: u8) -> u8 {
    (key & 0xE) | 1
}

/// One step of the generator, modulo 16.
pub open spec fn lcg_next(k: u8, key: u8) -> u8 {
    ((k as u32 * lcg_mul(key) as u32 + lcg_add(key) as u32) % 16) as u8
}

/// The generator's `j`-th state, starting from the key's high nibble.
pub open spec fn lcg_iter(key: u8, j: int) -> u8
    decreases j,
{
    if j <= 0 {
        key >> 4u8
    } else {
        lcg_next(lcg_iter(key, j - 1), key)
    }
}

/// The 16 values a key generates.
pub open spec fn lcg_table(key: u8) -> Seq<u8> {
    Seq::new(16, |i: int| lcg_iter(key, i + 1))
}

/// The generator reaches 0 and 15 within 16 steps, whatever the key.
proof fn lemma_lcg_hits(key: u8)
    ensures
        exists|i: int| 0 <= i < 16 && lcg_table(key)[i] == 0,
        exists|i: int| 0 <= i < 16 && lcg_table(key)[i] == 15,
{
    let k0 = lcg_iter(key, 0);
    let k1 = lcg_iter(key, 1);
    let k2 = lcg_iter(key, 2);
    let k3 = lcg_iter(key, 3);
    let k4 = lcg_iter(key, 4);
    let k5 = lcg_iter(key, 5);
    let k6 = lcg_iter(key, 6);
    let k7 = lcg_iter(key, 7);
    let k8 = lcg_iter(key, 8);
    let k9 = lcg_iter(key, 9);
    let k10 = lcg_iter(key, 10);
    let k11 = lcg_iter(key, 11);
    let k12 = lcg_iter(key, 12);
    let k13 = lcg_iter(key, 13);
    let k14 = lcg_iter(key, 14);
    let k15 = lcg_iter(key, 15);
    let k16 = lcg_iter(key, 16);
    assert(k1 == lcg_next(k0, key));
    assert(k2 == lcg_next(k1, key));
    assert(k3 == lcg_next(k2, key));
    assert(k4 == lcg_next(k3, key));
    assert(k5 == lcg_next(k4, key));
    assert(k6 == lcg_next(k5, key));
    assert(k7 == lcg_next(k6, key));
    assert(k8 == lcg_next(k7, key));
    assert(k9 == lcg_next(k8, key));
    assert(k10 == lcg_next(k9, key));
    assert(k11 == lcg_next(k10, key));
    assert(k12 == lcg_next(k11, key));
    assert(k13 == lcg_next(k12, key));
    assert(k14 == lcg_next(k13, key));
    assert(k15 == lcg_next(k14, key));
    assert(k16 == lcg_next(k15, key));
    assert(k1 == 0 || k2 == 0 || k3 == 0 || k4 == 0 || k5 == 0 || k6 == 0 || k7 == 0 || k8 == 0 || k9 == 0 || k10 == 0 || k11 == 0 || k12 == 0 || k13 == 0 || k14 == 0 || k15 == 0 || k16 == 0) by (bit_vector)
        requires
            k0 == key >> 4u8,
            k1 == lcg_next(k0, key),
            k2 == lcg_next(k1, key),
            k3 == lcg_next(k2, key),
            k4 == lcg_next(k3, key),
            k5 == lcg_next(k4, key),
            k6 == lcg_next(k5, key),
            k7 == lcg_next(k6, key),
            k8 == lcg_next(k7, key),
            k9 == lcg_next(k8, key),
            k10 == lcg_next(k9, key),
            k11 == lcg_next(k10, key),
            k12 == lcg_next(k11, key),
            k13 == lcg_next(k12, key),
            k14 == lcg_next(k13, key),
            k15 == lcg_next(k14, key),
            k16 == lcg_next(k15, key),
    ;
    assert(k1 == 15 || k2 == 15 || k3 == 15 || k4 == 15 || k5 == 15 || k6 == 15 || k7 == 15 || k8 == 15 || k9 == 15 || k10 == 15 || k11 == 15 || k12 == 15 || k13 == 15 || k14 == 15 || k15 == 15 || k16 == 15) by (bit_vector)
        requires
            k0 == key >> 4u8,
            k1 == lcg_next(k0, key),
            k2 == lcg_next(k1, key),
            k3 == lcg_next(k2, key),
            k4 == lcg_next(k3, key),
            k5 == lcg_next(k4, key),
            k6 == lcg_next(k5, key),
            k7 == lcg_next(k6, key),
            k8 == lcg_next(k7, key),
            k9 == lcg_next(k8, key),
            k10 == lcg_next(k9, key),
            k11 == lcg_next(k10, key),
            k12 == lcg_next(k11, key),
            k13 == lcg_next(k12, key),
            k14 == lcg_next(k13, key),
            k15 == lcg_next(k14, key),
            k16 == lcg_next(k15, key),
    ;
    if k1 == 0 {
        assert(lcg_table(key)[0] == 0);
    } else if k2 == 0 {
        assert(lcg_table(key)[1] == 0);
    } else if k3 == 0 {
        assert(lcg_table(key)[2] == 0);
    } else if k4 == 0 {
        assert(lcg_table(key)[3] == 0);
    } else if k5 == 0 {
        assert(lcg_table(key)[4] == 0);
    } else if k6 == 0 {
        assert(lcg_table(key)[5] == 0);
    } else if k7 == 0 {
        assert(lcg_table(key)[6] == 0);
    } else if k8 == 0 {
        assert(lcg_table(key)[7] == 0);
    } else if k9 == 0 {
        assert(lcg_table(key)[8] == 0);
    } else if k10 == 0 {
        assert(lcg_table(key)[9] == 0);
    } else if k11 == 0 {
        assert(lcg_table(key)[10] == 0);
    } else if k12 == 0 {
        assert(lcg_table(key)[11] == 0);
    } else if k13 == 0 {
        assert(lcg_table(key)[12] == 0);
    } else if k14 == 0 {
        assert(lcg_table(key)[13] == 0);
    } else if k15 == 0 {
        assert(lcg_table(key)[14] == 0);
    } else if k16 == 0 {
        assert(lcg_table(key)[15] == 0);
    }
    if k1 == 15 {
        assert(lcg_table(key)[0] == 15);
    } else if k2 == 15 {
        assert(lcg_table(key)[1] == 15);
    } else if k3 == 15 {
        assert(lcg_table(key)[2] == 15);
    } else if k4 == 15 {
        assert(lcg_table(key)[3] == 15);
    } else if k5 == 15 {
        assert(lcg_table(key)[4] == 15);
    } else if k6 == 15 {
        assert(lcg_table(key)[5] == 15);
    } else if k7 == 15 {
        assert(lcg_table(key)[6] == 15);
    } else if k8 == 15 {
        assert(lcg_table(key)[7] == 15);
    } else if k9 == 15 {
        assert(lcg_table(key)[8] == 15);
    } else if k10 == 15 {
        assert(lcg_table(key)[9] == 15);
    } else if k11 == 15 {
        assert(lcg_table(key)[10] == 15);
    } else if k12 == 15 {
        assert(lcg_table(key)[11] == 15);
    } else if k13 == 15 {
        assert(lcg_table(key)[12] == 15);
    } else if k14 == 15 {
        assert(lcg_table(key)[13] == 15);
    } else if k15 == 15 {
        assert(lcg_table(key)[14] == 15);
    } else if k16 == 15 {
        assert(lcg_table(key)[15] == 15);
    }
}

/// Bytes 0..7 of a key, least significant first; byte 7 is left zero.
pub open spec fn key_bytes(k: u64) -> Seq<u8> {
    Seq::new(8, |r: int| if r < 7 { ((k >> ((8 * r) as u64)) & 0xFF) as u8 } else { 0u8 })
}

/// The sixteen column seeds derived from the key bytes.
pub open spec fn seed56(kc: Seq<u8>) -> Seq<u8> {
    seq![
        kc[1], kc[1] ^ kc[6], kc[2] ^ kc[3], kc[2],
        kc[2] ^ kc[1], kc[3] ^ kc[4], kc[3], kc[3] ^ kc[2],
        kc[4] ^ kc[5], kc[4], kc[4] ^ kc[3], kc[5] ^ kc[6],
        kc[5], kc[5] ^ kc[4], kc[6] ^ kc[1], kc[6],
    ]
}

/// The 256-entry base square: row `r` has high nibble from the row
/// generator (seeded by key byte 0), low nibbles from the column generator
/// seeded by `seed56[r]`.
pub open spec fn base56(k: u64) -> Seq<u8> {
    let kc = key_bytes(k);
    Seq::new(
        256,
        |x: int| (lcg_table(kc[0])[x / 16] as int * 16 + lcg_table(seed56(kc)[x / 16])[x % 16] as int) as u8,
    )
}

/// The base square visited in steps of 17, starting at 17.
pub open spec fn order56(k: u64) -> Seq<u8> {
    Seq::new(256, |j: int| base56(k)[(17 * (j + 1)) % 256])
}

/// Entries other than 0x00 and 0xFF are kept.
pub open spec fn keep_pred() -> spec_fn(u8) -> bool {
    |b: u8| b != 0 && b != 255
}

/// The kept entries in visiting order; they fill the table from index 1.
pub open spec fn table56(k: u64) -> Seq<u8> {
    order56(k).filter(keep_pred())
}

/// The key the tables are derived from: one less than the keycode, unless
/// it is zero.
pub open spec fn adjusted_key(keycode: u64) -> u64 {
    if keycode != 0 { (keycode - 1) as u64 } else { keycode }
}

/// Fill `r` with the 16 values the generator makes from `key`.
fn cipher_init_56_create_table(r: &mut [u8; 16], key: u8)
    ensures
        final(r)@ == lcg_table(key),
{
    let mul: u8 = ((key & 1) << 3) | 5;
    let add: u8 = (key & 0xE) | 1;
    let mut k: u8 = key >> 4;
    let mut i: usize = 0;
    proof {
        assert(mul <= 13 && add <= 15) by (bit_vector)
            requires
                mul == ((key & 1) << 3u8) | 5,
                add == (key & 0xE) | 1,
        ;
        assert(k <= 15) by (bit_vector)
            requires
                k == key >> 4,
        ;
    }
    while i < 16
        invariant
            i <= 16,
            r@.len() == 16,
            mul == lcg_mul(key),
            add == lcg_add(key),
            mul <= 13,
            add <= 15,
            k == lcg_iter(key, i as int),
            k <= 15,
            forall|j: int| 0 <= j < i ==> r@[j] == lcg_table(key)[j],
        decreases 16 - i,
    {
        let k_old = k;
        let t = k.wrapping_mul(mul).wrapping_add(add);
        k = t & 0xF;
        proof {
            assert(k_old * mul <= 195) by (nonlinear_arith)
                requires
                    k_old <= 15,
                    mul <= 13,
            ;
            assert(t as int == k_old as int * mul as int + add as int);
            assert(t & 0xF == t % 16) by (bit_vector);
            assert(k <= 15);
        }
        r[i] = k;
        i = i + 1;
    }
    proof {
        assert(r@ =~= lcg_table(key));
    }
}

/// Where the visiting order reaches position `s` of the base square.
pub open spec fn visit_index(s: int) -> int {
    (241 * s + 255) % 256
}

/// Visit `visit_index(s)` lands on position `s`.
proof fn lemma_visit_index(s: int)
    requires
        0 <= s < 256,
    ensures
        0 <= visit_index(s) < 256,
        (17 * (visit_index(s) + 1)) % 256 == s,
{
    let su = s as u32;
    assert((17 * ((241 * su + 255) % 256 + 1)) % 256 == su) by (bit_vector)
        requires
            su < 256,
    ;
}

/// Generator values lie below 16.
proof fn lemma_lcg_small(key: u8, i: int)
    requires
        0 <= i < 16,
    ensures
        lcg_table(key)[i] < 16,
{
}

/// The generator's 16 values are all different: it runs through every
/// value below 16 once.
proof fn lemma_lcg_distinct(key: u8)
    ensures
        forall|i: int, j: int| 0 <= i < j < 16 ==> lcg_table(key)[i] != lcg_table(key)[j],
{
    let k0 = lcg_iter(key, 0);
    let k1 = lcg_iter(key, 1);
    let k2 = lcg_iter(key, 2);
    let k3 = lcg_iter(key, 3);
    let k4 = lcg_iter(key, 4);
    let k5 = lcg_iter(key, 5);
    let k6 = lcg_iter(key, 6);
    let k7 = lcg_iter(key, 7);
    let k8 = lcg_iter(key, 8);
    let k9 = lcg_iter(key, 9);
    let k10 = lcg_iter(key, 10);
    let k11 = lcg_iter(key, 11);
    let k12 = lcg_iter(key, 12);
    let k13 = lcg_iter(key, 13);
    let k14 = lcg_iter(key, 14);
    let k15 = lcg_iter(key, 15);
    let k16 = lcg_iter(key, 16);
    assert(k1 == lcg_next(k0, key));
    assert(k2 == lcg_next(k1, key));
    assert(k3 == lcg_next(k2, key));
    assert(k4 == lcg_next(k3, key));
    assert(k5 == lcg_next(k4, key));
    assert(k6 == lcg_next(k5, key));
    assert(k7 == lcg_next(k6, key));
    assert(k8 == lcg_next(k7, key));
    assert(k9 == lcg_next(k8, key));
    assert(k10 == lcg_next(k9, key));
    assert(k11 == lcg_next(k10, key));
    assert(k12 == lcg_next(k11, key));
    assert(k13 == lcg_next(k12, key));
    assert(k14 == lcg_next(k13, key));
    assert(k15 == lcg_next(k14, key));
    assert(k16 == lcg_next(k15, key));
    assert(k1 != k2 && k1 != k3 && k1 != k4 && k1 != k5 && k1 != k6 && k1 != k7 && k1 != k8 && k1 != k9 && k1 != k10 && k1 != k11 && k1 != k12 && k1 != k13 && k1 != k14 && k1 != k15 && k1 != k16 && k2 != k3 && k2 != k4 && k2 != k5 && k2 != k6 && k2 != k7 && k2 != k8 && k2 != k9 && k2 != k10 && k2 != k11 && k2 != k12 && k2 != k13 && k2 != k14 && k2 != k15 && k2 != k16 && k3 != k4 && k3 != k5 && k3 != k6 && k3 != k7 && k3 != k8 && k3 != k9 && k3 != k10 && k3 != k11 && k3 != k12 && k3 != k13 && k3 != k14 && k3 != k15 && k3 != k16 && k4 != k5 && k4 != k6 && k4 != k7 && k4 != k8 && k4 != k9 && k4 != k10 && k4 != k11 && k4 != k12 && k4 != k13 && k4 != k14 && k4 != k15 && k4 != k16 && k5 != k6 && k5 != k7 && k5 != k8 && k5 != k9 && k5 != k10 && k5 != k11 && k5 != k12 && k5 != k13 && k5 != k14 && k5 != k15 && k5 != k16 && k6 != k7 && k6 != k8 && k6 != k9 && k6 != k10 && k6 != k11 && k6 != k12 && k6 != k13 && k6 != k14 && k6 != k15 && k6 != k16 && k7 != k8 && k7 != k9 && k7 != k10 && k7 != k11 && k7 != k12 && k7 != k13 && k7 != k14 && k7 != k15 && k7 != k16 && k8 != k9 && k8 != k10 && k8 != k11 && k8 != k12 && k8 != k13 && k8 != k14 && k8 != k15 && k8 != k16 && k9 != k10 && k9 != k11 && k9 != k12 && k9 != k13 && k9 != k14 && k9 != k15 && k9 != k16 && k10 != k11 && k10 != k12 && k10 != k13 && k10 != k14 && k10 != k15 && k10 != k16 && k11 != k12 && k11 != k13 && k11 != k14 && k11 != k15 && k11 != k16 && k12 != k13 && k12 != k14 && k12 != k15 && k12 != k16 && k13 != k14 && k13 != k15 && k13 != k16 && k14 != k15 && k14 != k16 && k15 != k16) by (bit_vector)
        requires
            k0 == key >> 4u8,
            k1 == lcg_next(k0, key),
            k2 == lcg_next(k1, key),
            k3 == lcg_next(k2, key),
            k4 == lcg_next(k3, key),
            k5 == lcg_next(k4, key),
            k6 == lcg_next(k5, key),
            k7 == lcg_next(k6, key),
            k8 == lcg_next(k7, key),
            k9 == lcg_next(k8, key),
            k10 == lcg_next(k9, key),
            k11 == lcg_next(k10, key),
            k12 == lcg_next(k11, key),
            k13 == lcg_next(k12, key),
            k14 == lcg_next(k13, key),
            k15 == lcg_next(k14, key),
            k16 == lcg_next(k15, key),
    ;
    assert forall|i: int, j: int| 0 <= i < j < 16 implies lcg_table(key)[i] != lcg_table(key)[j] by {
        assert(lcg_table(key)[i] == lcg_iter(key, i + 1));
        assert(lcg_table(key)[j] == lcg_iter(key, j + 1));
    }
}

/// The row of the base square whose high nibble is 0.
pub open spec fn zero_row(k: u64) -> int {
    choose|i: int| 0 <= i < 16 && lcg_table(key_bytes(k)[0])[i] == 0
}

/// The row of the base square whose high nibble is 15.
pub open spec fn full_row(k: u64) -> int {
    choose|i: int| 0 <= i < 16 && lcg_table(key_bytes(k)[0])[i] == 15
}

/// The column of the zero row whose low nibble is 0.
pub open spec fn zero_col(k: u64) -> int {
    choose|i: int| 0 <= i < 16 && lcg_table(seed56(key_bytes(k))[zero_row(k)])[i] == 0
}

/// The column of the row of 15s whose low nibble is 15.
pub open spec fn full_col(k: u64) -> int {
    choose|i: int| 0 <= i < 16 && lcg_table(seed56(key_bytes(k))[full_row(k)])[i] == 15
}

/// The visit that lands on the base square's 0x00.
pub open spec fn drop_zero(k: u64) -> int {
    visit_index(16 * zero_row(k) + zero_col(k))
}

/// The visit that lands on the base square's 0xFF.
pub open spec fn drop_full(k: u64) -> int {
    visit_index(16 * full_row(k) + full_col(k))
}

/// Two distinct visits land on entries that are dropped: the base square
/// holds a 0x00 and a 0xFF.
proof fn lemma_dropped_visits(k: u64)
    ensures
        0 <= drop_zero(k) < 256,
        0 <= drop_full(k) < 256,
        drop_zero(k) != drop_full(k),
        !(keep_pred())(order56(k)[drop_zero(k)]),
        !(keep_pred())(order56(k)[drop_full(k)]),
        0 <= zero_row(k) < 16 && 0 <= zero_col(k) < 16,
        0 <= full_row(k) < 16 && 0 <= full_col(k) < 16,
        lcg_table(key_bytes(k)[0])[zero_row(k)] == 0,
        lcg_table(key_bytes(k)[0])[full_row(k)] == 15,
        lcg_table(seed56(key_bytes(k))[zero_row(k)])[zero_col(k)] == 0,
        lcg_table(seed56(key_bytes(k))[full_row(k)])[full_col(k)] == 15,
{
    let kc = key_bytes(k);
    let rows = lcg_table(kc[0]);
    lemma_lcg_hits(kc[0]);
    let r0 = zero_row(k);
    let r15 = full_row(k);
    let sd = seed56(kc);
    lemma_lcg_hits(sd[r0]);
    lemma_lcg_hits(sd[r15]);
    let c0 = zero_col(k);
    let c15 = full_col(k);
    let p0 = 16 * r0 + c0;
    let p255 = 16 * r15 + c15;
    let base = base56(k);
    assert(p0 / 16 == r0 && p0 % 16 == c0);
    assert(p255 / 16 == r15 && p255 % 16 == c15);
    assert(base[p0] == 0);
    assert(base[p255] == 255);
    lemma_visit_index(p0);
    lemma_visit_index(p255);
    let ja = visit_index(p0);
    let jb = visit_index(p255);
    assert(order56(k)[ja] == base[p0]);
    assert(order56(k)[jb] == base[p255]);
}

/// Visit `j` lands on the position that `visit_index` maps back to `j`.
proof fn lemma_visit_back(j: int)
    requires
        0 <= j < 256,
    ensures
        visit_index((17 * (j + 1)) % 256) == j,
{
    let ju = j as u32;
    assert((241 * ((17 * (ju + 1)) % 256) + 255) % 256 == ju) by (bit_vector)
        requires
            ju < 256,
    ;
}

/// Only the visits to the 0x00 and the 0xFF of the base square are dropped.
proof fn lemma_only_dropped(k: u64, j: int)
    requires
        0 <= j < 256,
        !(keep_pred())(order56(k)[j]),
    ensures
        j == drop_zero(k) || j == drop_full(k),
{
    lemma_dropped_visits(k);
    let kc = key_bytes(k);
    let sp = (17 * (j + 1)) % 256;
    let r = sp / 16;
    let c = sp % 16;
    let rows = lcg_table(kc[0]);
    let cols = lcg_table(seed56(kc)[r]);
    lemma_lcg_small(kc[0], r);
    lemma_lcg_small(seed56(kc)[r], c);
    lemma_lcg_distinct(kc[0]);
    lemma_lcg_distinct(seed56(kc)[r]);
    let v = rows[r] as int * 16 + cols[c] as int;
    assert(order56(k)[j] == base56(k)[sp]);
    assert(base56(k)[sp] == v as u8);
    assert(v < 256);
    assert(sp == 16 * r + c);
    lemma_visit_back(j);
    if v == 0 {
        assert(rows[r] == 0 && cols[c] == 0);
        assert(r == zero_row(k)) by {
            if r != zero_row(k) {
                if r < zero_row(k) {
                    assert(rows[r] != rows[zero_row(k)]);
                } else {
                    assert(rows[zero_row(k)] != rows[r]);
                }
            }
        }
        assert(c == zero_col(k)) by {
            if c != zero_col(k) {
                if c < zero_col(k) {
                    assert(cols[c] != cols[zero_col(k)]);
                } else {
                    assert(cols[zero_col(k)] != cols[c]);
                }
            }
        }
    } else {
        assert(v as u8 == 255);
        assert(v == 255);
        assert(rows[r] == 15 && cols[c] == 15);
        assert(r == full_row(k)) by {
            if r != full_row(k) {
                if r < full_row(k) {
                    assert(rows[r] != rows[full_row(k)]);
                } else {
                    assert(rows[full_row(k)] != rows[r]);
                }
            }
        }
        assert(c == full_col(k)) by {
            if c != full_col(k) {
                if c < full_col(k) {
                    assert(cols[c] != cols[full_col(k)]);
                } else {
                    assert(cols[full_col(k)] != cols[c]);
                }
            }
        }
    }
}

/// Distinct positions of the base square hold distinct bytes.
proof fn lemma_base_injective(k: u64, x: int, y: int)
    requires
        0 <= x < 256,
        0 <= y < 256,
        x != y,
    ensures
        base56(k)[x] != base56(k)[y],
{
    let kc = key_bytes(k);
    let rows = lcg_table(kc[0]);
    lemma_lcg_distinct(kc[0]);
    lemma_lcg_distinct(seed56(kc)[x / 16]);
    lemma_lcg_small(kc[0], x / 16);
    lemma_lcg_small(kc[0], y / 16);
    lemma_lcg_small(seed56(kc)[x / 16], x % 16);
    lemma_lcg_small(seed56(kc)[y / 16], y % 16);
    let cx = lcg_table(seed56(kc)[x / 16]);
    let cy = lcg_table(seed56(kc)[y / 16]);
    let vx = rows[x / 16] as int * 16 + cx[x % 16] as int;
    let vy = rows[y / 16] as int * 16 + cy[y % 16] as int;
    assert(base56(k)[x] == vx as u8);
    assert(base56(k)[y] == vy as u8);
    if x / 16 == y / 16 {
        assert(x % 16 != y % 16);
        if x % 16 < y % 16 {
            assert(cx[x % 16] != cx[y % 16]);
        } else {
            assert(cx[y % 16] != cx[x % 16]);
        }
    } else {
        if x / 16 < y / 16 {
            assert(rows[x / 16] != rows[y / 16]);
        } else {
            assert(rows[y / 16] != rows[x / 16]);
        }
    }
}

/// Distinct visits read distinct bytes.
proof fn lemma_order_injective(k: u64, i: int, j: int)
    requires
        0 <= i < 256,
        0 <= j < 256,
        i != j,
    ensures
        order56(k)[i] != order56(k)[j],
{
    lemma_visit_back(i);
    lemma_visit_back(j);
    lemma_base_injective(k, (17 * (i + 1)) % 256, (17 * (j + 1)) % 256);
}

/// Keeping some entries of a list without repeats keeps it without
/// repeats, each kept entry being one of the list's.
proof fn lemma_filter_distinct(ord: Seq<u8>, n: int)
    requires
        0 <= n <= ord.len(),
        forall|i: int, j: int| 0 <= i < j < ord.len() ==> ord[i] != ord[j],
    ensures
        forall|a: int, b: int|
            0 <= a < b < ord.take(n).filter(keep_pred()).len() ==> ord.take(n).filter(
                keep_pred(),
            )[a] != ord.take(n).filter(keep_pred())[b],
        forall|a: int|
            0 <= a < ord.take(n).filter(keep_pred()).len() ==> exists|m: int|
                0 <= m < n && ord[m] == #[trigger] ord.take(n).filter(keep_pred())[a],
    decreases n,
{
    if n == 0 {
        reveal(Seq::filter);
        assert(ord.take(0) =~= Seq::<u8>::empty());
    } else {
        lemma_filter_distinct(ord, n - 1);
        lemma_filter_step(ord, n - 1);
        let f = ord.take(n - 1).filter(keep_pred());
        let g = ord.take(n).filter(keep_pred());
        if (keep_pred())(ord[n - 1]) {
            assert(g == f.push(ord[n - 1]));
            assert forall|a: int| 0 <= a < g.len() implies exists|m: int|
                0 <= m < n && ord[m] == #[trigger] g[a] by {
                if a < f.len() {
                    assert(g[a] == f[a]);
                    let m = choose|m: int| 0 <= m < n - 1 && ord[m] == f[a];
                    assert(ord[m] == g[a]);
                } else {
                    assert(ord[n - 1] == g[a]);
                }
            }
            assert forall|a: int, b: int| 0 <= a < b < g.len() implies g[a] != g[b] by {
                if b < f.len() {
                    assert(g[a] == f[a] && g[b] == f[b]);
                } else {
                    assert(g[a] == f[a]);
                    let m = choose|m: int| 0 <= m < n - 1 && ord[m] == f[a];
                    assert(ord[m] != ord[n - 1]);
                }
            }
        } else {
            assert(g == f);
            assert forall|a: int| 0 <= a < g.len() implies exists|m: int|
                0 <= m < n && ord[m] == #[trigger] g[a] by {
                let m = choose|m: int| 0 <= m < n - 1 && ord[m] == f[a];
                assert(ord[m] == g[a]);
            }
        }
    }
}

/// After `n` visits the kept entries number `n` less the dropped visits
/// among them.
proof fn lemma_kept_count(k: u64, n: int)
    requires
        0 <= n <= 256,
    ensures
        order56(k).take(n).filter(keep_pred()).len() == n - dropped_before(drop_zero(k), drop_full(k), n),
    decreases n,
{
    lemma_dropped_visits(k);
    if n == 0 {
        reveal(Seq::filter);
        assert(order56(k).take(0) =~= Seq::<u8>::empty());
    } else {
        lemma_kept_count(k, n - 1);
        lemma_filter_step(order56(k), n - 1);
        if !(keep_pred())(order56(k)[n - 1]) {
            lemma_only_dropped(k, n - 1);
        }
    }
}

/// The type-56 table of every key is a permutation: its 254 entries are
/// distinct and lie between 1 and 254, so with 0 and 0xFF mapped to
/// themselves every byte appears once in the cipher table.
pub proof fn law_type56_permutation(k: u64)
    ensures
        table56(k).len() == 254,
        forall|i: int, j: int| 0 <= i < j < 254 ==> table56(k)[i] != table56(k)[j],
        forall|i: int| 0 <= i < 254 ==> 1 <= #[trigger] table56(k)[i] <= 254,
{
    let ord = order56(k);
    lemma_kept_count(k, 256);
    lemma_dropped_visits(k);
    assert(ord.take(256) =~= ord);
    assert forall|i: int, j: int| 0 <= i < j < ord.len() implies ord[i] != ord[j] by {
        lemma_order_injective(k, i, j);
    }
    lemma_filter_distinct(ord, 256);
    assert forall|i: int| 0 <= i < 254 implies 1 <= #[trigger] table56(k)[i] <= 254 by {
        ord.lemma_filter_pred(keep_pred(), i);
    }
}

/// Only the low 56 bits of the adjusted key reach the table: keycodes that
/// differ by 2^56 give the same table, and so do keycodes 0 and 1.
pub proof fn law_type56_key_bits(keycode: u64)
    requires
        1 <= keycode < 0x1_0000_0000_0000_0000 - 0x100_0000_0000_0000,
    ensures
        table56(adjusted_key(keycode)) == table56(adjusted_key((keycode + 0x100_0000_0000_0000) as u64)),
        table56(adjusted_key(0)) == table56(adjusted_key(1)),
{
    let a: u64 = (keycode - 1) as u64;
    let b: u64 = (keycode + 0x100_0000_0000_0000 - 1) as u64;
    assert forall|r: int| 0 <= r < 8 implies #[trigger] key_bytes(a)[r] == key_bytes(b)[r] by {
        if r < 7 {
            let s: u64 = (8 * r) as u64;
            assert(((a >> s) & 0xFF) == ((b >> s) & 0xFF)) by (bit_vector)
                requires
                    b == a + 0x100_0000_0000_0000,
                    s <= 48,
            ;
        }
    }
    assert(key_bytes(a) =~= key_bytes(b));
}

/// Taking one more element filters to one more kept entry, or the same.
proof fn lemma_filter_step(ord: Seq<u8>, j: int)
    requires
        0 <= j < ord.len(),
    ensures
        ord.take(j + 1).filter(keep_pred()) == if (keep_pred())(ord[j]) {
            ord.take(j).filter(keep_pred()).push(ord[j])
        } else {
            ord.take(j).filter(keep_pred())
        },
{
    reveal(Seq::filter);
    assert(ord.take(j + 1).drop_last() =~= ord.take(j));
    assert(ord.take(j + 1).last() == ord[j]);
}

/// Stepping by 17 modulo 256.
proof fn lemma_step17(j: int)
    requires
        0 <= j,
    ensures
        ((17 * j) % 256 + 17) % 256 == (17 * (j + 1)) % 256,
{
    vstd::arithmetic::div_mod::lemma_add_mod_noop(17 * j, 17, 256);
    assert(17 * j + 17 == 17 * (j + 1));
}

/// Number of the two dropped visits that come before `j`.
pub open spec fn dropped_before(ja: int, jb: int, j: int) -> int {
    (if ja < j { 1int } else { 0int }) + (if jb < j { 1int } else { 0int })
}

/// Type 56: a table derived from the keycode (less one). The base square is
/// visited in steps of 17; its entries other than 0x00 and 0xFF fill the
/// table from index 1 in that order, and 0 and 0xFF map to themselves.
#[verifier::rlimit(40)]
pub fn cipher_init_56(cipher_table: &mut [u8; 256], keycode: u64)
    ensures
        final(cipher_table)@[0] == 0,
        final(cipher_table)@[255] == 255,
        table56(adjusted_key(keycode)).len() == 254,
        forall|i: int|
            1 <= i <= 254 ==> final(cipher_table)@[i] == table56(adjusted_key(keycode))[i - 1],
{
    let mut kc: [u8; 8] = [0u8; 8];
    let mut seed: [u8; 16] = [0u8; 16];
    let mut base: [u8; 256] = [0u8; 256];
    let mut base_r: [u8; 16] = [0u8; 16];
    let mut base_c: [u8; 16] = [0u8; 16];

    let keycode = if keycode != 0 { keycode - 1 } else { keycode };
    let ghost k = keycode;

    let mut r: usize = 0;
    while r < 7
        invariant
            r <= 7,
            keycode == k,
            kc@.len() == 8,
            kc@[7] == 0,
            forall|j: int| 0 <= j < r ==> kc@[j] == key_bytes(k)[j],
        decreases 7 - r,
    {
        kc[r] = ((keycode >> ((r * 8) as u64)) & 0xFF) as u8;
        r = r + 1;
    }
    proof {
        assert(kc@ =~= key_bytes(k));
    }

    seed[0x00] = kc[1];
    seed[0x01] = kc[1] ^ kc[6];
    seed[0x02] = kc[2] ^ kc[3];
    seed[0x03] = kc[2];
    seed[0x04] = kc[2] ^ kc[1];
    seed[0x05] = kc[3] ^ kc[4];
    seed[0x06] = kc[3];
    seed[0x07] = kc[3] ^ kc[2];
    seed[0x08] = kc[4] ^ kc[5];
    seed[0x09] = kc[4];
    seed[0x0A] = kc[4] ^ kc[3];
    seed[0x0B] = kc[5] ^ kc[6];
    seed[0x0C] = kc[5];
    seed[0x0D] = kc[5] ^ kc[4];
    seed[0x0E] = kc[6] ^ kc[1];
    seed[0x0F] = kc[6];
    proof {
        assert(seed@ =~= seed56(key_bytes(k)));
    }

    cipher_init_56_create_table(&mut base_r, kc[0]);
    let mut r: usize = 0;
    while r < 16
        invariant
            r <= 16,
            base@.len() == 256,
            base_c@.len() == 16,
            base_r@ == lcg_table(key_bytes(k)[0]),
            seed@ == seed56(key_bytes(k)),
            forall|x: int| 0 <= x < r * 16 ==> base@[x] == base56(k)[x],
        decreases 16 - r,
    {
        cipher_init_56_create_table(&mut base_c, seed[r]);
        proof {
            lemma_lcg_small(key_bytes(k)[0], r as int);
        }
        let nb: u8 = base_r[r] << 4;
        let mut c: usize = 0;
        while c < 16
            invariant
                r < 16,
                c <= 16,
                base@.len() == 256,
                base_c@ == lcg_table(seed56(key_bytes(k))[r as int]),
                base_r@ == lcg_table(key_bytes(k)[0]),
                base_r@[r as int] < 16,
                nb == base_r@[r as int] << 4u8,
                forall|x: int| 0 <= x < r * 16 + c ==> base@[x] == base56(k)[x],
            decreases 16 - c,
        {
            let rv = base_r[r];
            let cv = base_c[c];
            proof {
                lemma_lcg_small(seed56(key_bytes(k))[r as int], c as int);
                assert((rv << 4u8) | cv == rv * 16 + cv) by (bit_vector)
                    requires
                        rv < 16,
                        cv < 16,
                ;
                let x = r * 16 + c;
                assert(x / 16 == r && x % 16 == c);
            }
            base[r * 16 + c] = nb | cv;
            c = c + 1;
        }
        r = r + 1;
    }
    proof {
        assert(base@ =~= base56(k));
    }

    let ghost ord = order56(k);
    proof {
        lemma_dropped_visits(k);
    }
    let ghost ja = drop_zero(k);
    let ghost jb = drop_full(k);
    let mut x: usize = 0;
    let mut pos: usize = 1;
    let mut j: usize = 0;
    let ghost mut f: Seq<u8> = Seq::empty();
    proof {
        reveal(Seq::filter);
        assert(ord.take(0) =~= Seq::<u8>::empty());
    }
    proof {
        assert forall|jj: int| 0 <= jj < 256 implies ord[jj] == base@[(17 * (jj + 1)) % 256] by {
        }
    }
    while j < 256
        invariant
            j <= 256,
            x == (17 * j) % 256,
            ord.len() == 256,
            forall|jj: int| 0 <= jj < 256 ==> ord[jj] == #[trigger] base@[(17 * (jj + 1)) % 256],
            cipher_table@.len() == 256,
            0 <= ja < 256,
            0 <= jb < 256,
            ja != jb,
            !(keep_pred())(ord[ja]),
            !(keep_pred())(ord[jb]),
            f == ord.take(j as int).filter(keep_pred()),
            pos == 1 + f.len(),
            ord == order56(k),
            ja == drop_zero(k),
            jb == drop_full(k),
            f.len() == j - dropped_before(ja, jb, j as int),
            forall|i: int| 1 <= i < pos ==> cipher_table@[i] == f[i - 1],
            forall|i: int| pos <= i < 256 ==> cipher_table@[i] == old(cipher_table)@[i],
        decreases 256 - j,
    {
        let xs = x + 17;
        x = xs & 0xFF;
        proof {
            assert(xs & 0xFF == xs % 256) by (bit_vector);
            lemma_step17(j as int);
            assert(ord[j as int] == base@[x as int]);
            lemma_filter_step(ord, j as int);
        }
        let e = base[x];
        let ghost before = cipher_table@;
        if e != 0 && e != 0xFF {
            proof {
                assert(j as int != ja && j as int != jb);
                assert(pos <= 255);
            }
            cipher_table[pos] = e;
            pos = pos + 1;
            proof {
                let f1 = f.push(e);
                assert forall|i: int| 1 <= i < pos implies cipher_table@[i] == f1[i - 1] by {
                    if i < pos - 1 {
                        assert(cipher_table@[i] == before[i]);
                    }
                }
                f = f1;
            }
        }
        proof {
            if !(e != 0 && e != 0xFF) {
                assert(ord[j as int] == e);
                assert(!(keep_pred())(ord[j as int]));
                lemma_only_dropped(k, j as int);
            }
        }
        j = j + 1;
    }
    proof {
        assert(ord.take(256) =~= ord);
    }
    cipher_table[0] = 0;
    cipher_table[0xFF] = 0xFF;
}

/// Build the cipher table for a cipher type; type 56 with a zero keycode,
/// and unknown types, give the identity.
pub fn cipher_init(cipher_table: &mut [u8; 256], ciph_type: u32, keycode: u64)
    ensures
        ciph_type == 1 ==> final(cipher_table)@[0] == 0 && final(cipher_table)@[255] == 255
            && forall|i: int| 1 <= i <= 254 ==> final(cipher_table)@[i] == scramble_value(i),
        ciph_type == 56 && keycode != 0 ==> {
            &&& final(cipher_table)@[0] == 0
            &&& final(cipher_table)@[255] == 255
            &&& table56(adjusted_key(keycode)).len() == 254
            &&& forall|i: int|
                1 <= i <= 254 ==> final(cipher_table)@[i] == table56(adjusted_key(keycode))[i - 1]
        },
        ciph_type != 1 && !(ciph_type == 56 && keycode != 0) ==> forall|i: int|
            0 <= i < 256 ==> final(cipher_table)@[i] == i,
{
    let ciph_type = if ciph_type == 56 && keycode == 0 { 0 } else { ciph_type };
    if ciph_type == 0 {
        cipher_init_0(cipher_table);
    } else if ciph_type == 1 {
        cipher_init_1(cipher_table);
    } else if ciph_type == 56 {
        cipher_init_56(cipher_table, keycode);
    } else {
        cipher_init_0(cipher_table);
    }
}

/// The type-56 generator in arithmetic: from the high nibble of its key,
/// each value is the previous one times 13 (odd key) or 5 (even key), plus
/// the key's low nibble made odd, modulo 16.
pub proof fn law_type56_generator(key: u8)
    ensures
        ({
            let m: int = if key % 2 == 1 { 13 } else { 5 };
            let a: int = if key % 2 == 1 { key as int % 16 } else { key as int % 16 + 1 };
            &&& lcg_table(key).len() == 16
            &&& lcg_table(key)[0] == ((key as int / 16) * m + a) % 16
            &&& forall|i: int|
                0 <= i < 15 ==> #[trigger] lcg_table(key)[i + 1] == (lcg_table(key)[i] * m + a)
                    % 16
        }),
{
    assert(lcg_mul(key) == (if key % 2 == 1 { 13u8 } else { 5u8 }) && lcg_add(key) == (if key % 2
        == 1 { key % 16 } else { (key % 16 + 1) as u8 }) && key >> 4u8 == key / 16) by (bit_vector);
    assert(lcg_iter(key, 0) == key / 16);
    assert forall|i: int| 0 <= i < 15 implies #[trigger] lcg_table(key)[i + 1] == (lcg_table(key)[i]
        * lcg_mul(key) + lcg_add(key)) % 16 by {
        assert(lcg_table(key)[i + 1] == lcg_iter(key, i + 2));
        assert(lcg_iter(key, i + 2) == lcg_next(lcg_iter(key, i + 1), key));
    }
    assert(lcg_table(key)[0] == lcg_next(lcg_iter(key, 0), key));
}

/// The type-56 base square from the key's bytes b0..b6 (least significant
/// first): row r, column c holds the row generator's r-th value (seeded by
/// b0) as its high nibble and, as its low nibble, the c-th value of the
/// generator seeded by the row's column seed: b1, b1^b6, b2^b3, b2, b2^b1,
/// b3^b4, b3, b3^b2, b4^b5, b4, b4^b3, b5^b6, b5, b5^b4, b6^b1, b6 for rows
/// 0 to 15.
#[verifier::rlimit(40)]
pub proof fn law_type56_base_square(k: u64)
    ensures
        ({
            let b0 = (k % 0x100) as u8;
            let b1 = (k / 0x100 % 0x100) as u8;
            let b2 = (k / 0x1_0000 % 0x100) as u8;
            let b3 = (k / 0x100_0000 % 0x100) as u8;
            let b4 = (k / 0x1_0000_0000 % 0x100) as u8;
            let b5 = (k / 0x100_0000_0000 % 0x100) as u8;
            let b6 = (k / 0x1_0000_0000_0000 % 0x100) as u8;
            &&& base56(k).len() == 256
            &&& forall|c: int| 0 <= c < 16 ==> #[trigger] base56(k)[0 * 16 + c] == (lcg_table(b0)[0] as int * 16
                + lcg_table(b1)[c] as int) as u8
            &&& forall|c: int| 0 <= c < 16 ==> #[trigger] base56(k)[1 * 16 + c] == (lcg_table(b0)[1] as int * 16
                + lcg_table(b1 ^ b6)[c] as int) as u8
            &&& forall|c: int| 0 <= c < 16 ==> #[trigger] base56(k)[2 * 16 + c] == (lcg_table(b0)[2] as int * 16
                + lcg_table(b2 ^ b3)[c] as int) as u8
            &&& forall|c: int| 0 <= c < 16 ==> #[trigger] base56(k)[3 * 16 + c] == (lcg_table(b0)[3] as int * 16
                + lcg_table(b2)[c] as int) as u8
            &&& forall|c: int| 0 <= c < 16 ==> #[trigger] base56(k)[4 * 16 + c] == (lcg_table(b0)[4] as int * 16
                + lcg_table(b2 ^ b1)[c] as int) as u8
            &&& forall|c: int| 0 <= c < 16 ==> #[trigger] base56(k)[5 * 16 + c] == (lcg_table(b0)[5] as int * 16
                + lcg_table(b3 ^ b4)[c] as int) as u8
            &&& forall|c: int| 0 <= c < 16 ==> #[trigger] base56(k)[6 * 16 + c] == (lcg_table(b0)[6] as int * 16
                + lcg_table(b3)[c] as int) as u8
            &&& forall|c: int| 0 <= c < 16 ==> #[trigger] base56(k)[7 * 16 + c] == (lcg_table(b0)[7] as int * 16
                + lcg_table(b3 ^ b2)[c] as int) as u8
            &&& forall|c: int| 0 <= c < 16 ==> #[trigger] base56(k)[8 * 16 + c] == (lcg_table(b0)[8] as int * 16
                + lcg_table(b4 ^ b5)[c] as int) as u8
            &&& forall|c: int| 0 <= c < 16 ==> #[trigger] base56(k)[9 * 16 + c] == (lcg_table(b0)[9] as int * 16
                + lcg_table(b4)[c] as int) as u8
            &&& forall|c: int| 0 <= c < 16 ==> #[trigger] base56(k)[10 * 16 + c] == (lcg_table(b0)[10] as int * 16
                + lcg_table(b4 ^ b3)[c] as int) as u8
            &&& forall|c: int| 0 <= c < 16 ==> #[trigger] base56(k)[11 * 16 + c] == (lcg_table(b0)[11] as int * 16
                + lcg_table(b5 ^ b6)[c] as int) as u8
            &&& forall|c: int| 0 <= c < 16 ==> #[trigger] base56(k)[12 * 16 + c] == (lcg_table(b0)[12] as int * 16
                + lcg_table(b5)[c] as int) as u8
            &&& forall|c: int| 0 <= c < 16 ==> #[trigger] base56(k)[13 * 16 + c] == (lcg_table(b0)[13] as int * 16
                + lcg_table(b5 ^ b4)[c] as int) as u8
            &&& forall|c: int| 0 <= c < 16 ==> #[trigger] base56(k)[14 * 16 + c] == (lcg_table(b0)[14] as int * 16
                + lcg_table(b6 ^ b1)[c] as int) as u8
            &&& forall|c: int| 0 <= c < 16 ==> #[trigger] base56(k)[15 * 16 + c] == (lcg_table(b0)[15] as int * 16
                + lcg_table(b6)[c] as int) as u8
        }),
{
    assert(((k >> 0u64) & 0xFF) as u8 == k % 0x100 && ((k >> 8u64) & 0xFF) as u8 == k / 0x100 % 0x100
        && ((k >> 16u64) & 0xFF) as u8 == k / 0x1_0000 % 0x100 && ((k >> 24u64) & 0xFF) as u8 == k
        / 0x100_0000 % 0x100 && ((k >> 32u64) & 0xFF) as u8 == k / 0x1_0000_0000 % 0x100 && ((k
        >> 40u64) & 0xFF) as u8 == k / 0x100_0000_0000 % 0x100 && ((k >> 48u64) & 0xFF) as u8 == k
        / 0x1_0000_0000_0000 % 0x100) by (bit_vector);
    let kc = key_bytes(k);
    assert(kc[0] == (k % 0x100) as u8);
    assert(kc[1] == (k / 0x100 % 0x100) as u8);
    assert(kc[2] == (k / 0x1_0000 % 0x100) as u8);
    assert(kc[3] == (k / 0x100_0000 % 0x100) as u8);
    assert(kc[4] == (k / 0x1_0000_0000 % 0x100) as u8);
    assert(kc[5] == (k / 0x100_0000_0000 % 0x100) as u8);
    assert(kc[6] == (k / 0x1_0000_0000_0000 % 0x100) as u8);
    let b0 = kc[0];
    assert forall|c: int| 0 <= c < 16 implies #[trigger] base56(k)[0 * 16 + c] == (lcg_table(b0)[0] as int
        * 16 + lcg_table(seed56(kc)[0])[c] as int) as u8 by {
        lemma_square_cell(k, 0, c);
    }
    assert forall|c: int| 0 <= c < 16 implies #[trigger] base56(k)[1 * 16 + c] == (lcg_table(b0)[1] as int
        * 16 + lcg_table(seed56(kc)[1])[c] as int) as u8 by {
        lemma_square_cell(k, 1, c);
    }
    assert forall|c: int| 0 <= c < 16 implies #[trigger] base56(k)[2 * 16 + c] == (lcg_table(b0)[2] as int
        * 16 + lcg_table(seed56(kc)[2])[c] as int) as u8 by {
        lemma_square_cell(k, 2, c);
    }
    assert forall|c: int| 0 <= c < 16 implies #[trigger] base56(k)[3 * 16 + c] == (lcg_table(b0)[3] as int
        * 16 + lcg_table(seed56(kc)[3])[c] as int) as u8 by {
        lemma_square_cell(k, 3, c);
    }
    assert forall|c: int| 0 <= c < 16 implies #[trigger] base56(k)[4 * 16 + c] == (lcg_table(b0)[4] as int
        * 16 + lcg_table(seed56(kc)[4])[c] as int) as u8 by {
        lemma_square_cell(k, 4, c);
    }
    assert forall|c: int| 0 <= c < 16 implies #[trigger] base56(k)[5 * 16 + c] == (lcg_table(b0)[5] as int
        * 16 + lcg_table(seed56(kc)[5])[c] as int) as u8 by {
        lemma_square_cell(k, 5, c);
    }
    assert forall|c: int| 0 <= c < 16 implies #[trigger] base56(k)[6 * 16 + c] == (lcg_table(b0)[6] as int
        * 16 + lcg_table(seed56(kc)[6])[c] as int) as u8 by {
        lemma_square_cell(k, 6, c);
    }
    assert forall|c: int| 0 <= c < 16 implies #[trigger] base56(k)[7 * 16 + c] == (lcg_table(b0)[7] as int
        * 16 + lcg_table(seed56(kc)[7])[c] as int) as u8 by {
        lemma_square_cell(k, 7, c);
    }
    assert forall|c: int| 0 <= c < 16 implies #[trigger] base56(k)[8 * 16 + c] == (lcg_table(b0)[8] as int
        * 16 + lcg_table(seed56(kc)[8])[c] as int) as u8 by {
        lemma_square_cell(k, 8, c);
    }
    assert forall|c: int| 0 <= c < 16 implies #[trigger] base56(k)[9 * 16 + c] == (lcg_table(b0)[9] as int
        * 16 + lcg_table(seed56(kc)[9])[c] as int) as u8 by {
        lemma_square_cell(k, 9, c);
    }
    assert forall|c: int| 0 <= c < 16 implies #[trigger] base56(k)[10 * 16 + c] == (lcg_table(b0)[10] as int
        * 16 + lcg_table(seed56(kc)[10])[c] as int) as u8 by {
        lemma_square_cell(k, 10, c);
    }
    assert forall|c: int| 0 <= c < 16 implies #[trigger] base56(k)[11 * 16 + c] == (lcg_table(b0)[11] as int
        * 16 + lcg_table(seed56(kc)[11])[c] as int) as u8 by {
        lemma_square_cell(k, 11, c);
    }
    assert forall|c: int| 0 <= c < 16 implies #[trigger] base56(k)[12 * 16 + c] == (lcg_table(b0)[12] as int
        * 16 + lcg_table(seed56(kc)[12])[c] as int) as u8 by {
        lemma_square_cell(k, 12, c);
    }
    assert forall|c: int| 0 <= c < 16 implies #[trigger] base56(k)[13 * 16 + c] == (lcg_table(b0)[13] as int
        * 16 + lcg_table(seed56(kc)[13])[c] as int) as u8 by {
        lemma_square_cell(k, 13, c);
    }
    assert forall|c: int| 0 <= c < 16 implies #[trigger] base56(k)[14 * 16 + c] == (lcg_table(b0)[14] as int
        * 16 + lcg_table(seed56(kc)[14])[c] as int) as u8 by {
        lemma_square_cell(k, 14, c);
    }
    assert forall|c: int| 0 <= c < 16 implies #[trigger] base56(k)[15 * 16 + c] == (lcg_table(b0)[15] as int
        * 16 + lcg_table(seed56(kc)[15])[c] as int) as u8 by {
        lemma_square_cell(k, 15, c);
    }
}

proof fn lemma_square_cell(k: u64, r: int, c: int)
    requires
        0 <= r < 16,
        0 <= c < 16,
    ensures
        base56(k)[r * 16 + c] == (lcg_table(key_bytes(k)[0])[r] as int * 16 + lcg_table(
            seed56(key_bytes(k))[r],
        )[c] as int) as u8,
{
    assert((r * 16 + c) / 16 == r && (r * 16 + c) % 16 == c) by (nonlinear_arith)
        requires
            0 <= r < 16,
            0 <= c < 16,
    ;
}

} // verus!
