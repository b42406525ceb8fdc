//! What parsing gives back of a built AFS2 archive.

use crate::acb::afs::{
    afs_alignment, afs_count, afs_cue_id, afs_entries, afs_entry, afs_header_result, afs_offset,
    afs_sizes_fit, entry_bytes, AfsFileEntry, AFS2_MAGIC,
};
use crate::acb::builder::{
    afs_build_fits, afs_data_start, afs_file_bytes, afs_file_offset, afs_header_image,
    afs_header_size, afs_id_bytes, afs_image, afs_magic_version, afs_offset_bytes,
    lemma_afs_header_len, lemma_id_bytes_len, lemma_mask_bounds, lemma_offset_bytes_len,
    lemma_offset_step, spec_align_offset, zeros,
};
use crate::reader::{
    be32, le16, le16_bytes, le32, le32_bytes, lemma_align_bounds, lemma_le16_roundtrip,
    lemma_le32_roundtrip, spec_align,
};
use vstd::arithmetic::power2::pow2;
use vstd::bits::{low_bits_mask, lemma_u32_low_bits_mask_is_mod, lemma_u32_pow2_no_overflow};
use vstd::prelude::*;

verus! {

/// A power of two that fits in u32.
pub open spec fn is_pow2(a: u32) -> bool {
    exists|k: nat| k < 32 && a as nat == pow2(k)
}

/// The zeros that follow file `i` up to the next offset.
pub open spec fn afs_padding(files: Seq<(u32, Seq<u8>)>, a: int, i: int) -> Seq<u8> {
    zeros(afs_file_offset(files, a, i + 1) - afs_file_offset(files, a, i) - files[i].1.len())
}

/// Parsing a built archive gives back every file: its cue id as the u16 that
/// was written, its start and its size up to the next start, and its bytes
/// at that start. Every file but the last also reads back with the zero
/// padding up to the next file; the last does too when its length is a
/// multiple of the alignment (the recorded end offset is aligned, so a
/// shorter last file's entry runs past the end of the archive). The
/// alignment must be a power of two.
pub proof fn law_afs_build_then_parse(files: Seq<(u32, Seq<u8>)>, a: u32)
    requires
        files.len() > 0,
        afs_build_fits(files, a as int),
        is_pow2(a),
    ensures
        ({
            let img = afs_image(files, a as int);
            &&& afs_header_result(img) is Ok
            &&& afs_sizes_fit(img)
            &&& afs_alignment(img) == a
            &&& afs_entries(img).len() == files.len()
            &&& forall|i: int|
                0 <= i < files.len() ==> {
                    &&& (#[trigger] afs_entries(img)[i]).cue_id == (files[i].0 as int % 0x1_0000) as i32
                    &&& afs_entries(img)[i].offset == afs_file_offset(files, a as int, i)
                    &&& afs_entries(img)[i].size == afs_file_offset(files, a as int, i + 1)
                        - afs_file_offset(files, a as int, i)
                    &&& img.skip(afs_file_offset(files, a as int, i)).take(files[i].1.len() as int)
                        == files[i].1
                    &&& (i < files.len() - 1 || files[files.len() - 1].1.len() as int % (a as int)
                        == 0) ==> entry_bytes(img, afs_entries(img)[i]) == Ok::<
                        Seq<u8>,
                        crate::acb::afs::AfsError,
                    >(files[i].1 + afs_padding(files, a as int, i))
                }
        }),
{
    let n = files.len() as int;
    let ai = a as int;
    let img = afs_image(files, ai);
    lemma_image_layout(files, a);
    lemma_header_fields(files, a);
    lemma_tables(files, a);
    assert forall|i: int| 0 <= i < n implies #[trigger] spec_align(
        ai,
        afs_offset(img, i) as int,
    ) == afs_file_offset(files, ai, i) by {
        lemma_offsets_aligned(files, a, n);
        lemma_offset_fits(files, ai, i);
        lemma_align_exact(ai, afs_file_offset(files, ai, i));
    }
    assert forall|i: int| 0 <= i < n implies spec_align(ai, afs_offset(img, i) as int)
        <= afs_offset(img, i + 1) by {
        lemma_offset_step(files, ai, i);
    }
    assert(afs_sizes_fit(img));
    assert forall|i: int| 0 <= i < n implies {
        &&& (#[trigger] afs_entries(img)[i]).cue_id == (files[i].0 as int % 0x1_0000) as i32
        &&& afs_entries(img)[i].offset == afs_file_offset(files, ai, i)
        &&& afs_entries(img)[i].size == afs_file_offset(files, ai, i + 1) - afs_file_offset(
            files,
            ai,
            i,
        )
        &&& img.skip(afs_file_offset(files, ai, i)).take(files[i].1.len() as int) == files[i].1
        &&& (i < n - 1 || files[n - 1].1.len() as int % ai == 0) ==> entry_bytes(
            img,
            afs_entries(img)[i],
        ) == Ok::<Seq<u8>, crate::acb::afs::AfsError>(files[i].1 + afs_padding(files, ai, i))
    } by {
        lemma_offsets_aligned(files, a, n);
        lemma_entry_fields(files, a, i);
        lemma_file_at(files, a, i);
        if i < n - 1 || files[n - 1].1.len() as int % ai == 0 {
            lemma_entry(files, a, i);
        }
    }
}

/// Entry `i` of the parsed archive: its cue id, start and size.
proof fn lemma_entry_fields(files: Seq<(u32, Seq<u8>)>, a: u32, i: int)
    requires
        files.len() > 0,
        afs_build_fits(files, a as int),
        is_pow2(a),
        0 <= i < files.len(),
        afs_header_result(afs_image(files, a as int)) is Ok,
        afs_count(afs_image(files, a as int)) == files.len(),
        afs_alignment(afs_image(files, a as int)) == a,
        afs_cue_id(afs_image(files, a as int), i) == (files[i].0 as int % 0x1_0000) as i32,
        afs_offset(afs_image(files, a as int), i) == afs_file_offset(files, a as int, i),
        afs_offset(afs_image(files, a as int), i + 1) == afs_file_offset(files, a as int, i + 1),
    ensures
        ({
            let img = afs_image(files, a as int);
            &&& afs_entries(img)[i].cue_id == (files[i].0 as int % 0x1_0000) as i32
            &&& afs_entries(img)[i].offset == afs_file_offset(files, a as int, i)
            &&& afs_entries(img)[i].size == afs_file_offset(files, a as int, i + 1)
                - afs_file_offset(files, a as int, i)
        }),
{
    let ai = a as int;
    let n = files.len() as int;
    let img = afs_image(files, ai);
    lemma_offsets_aligned(files, a, n);
    lemma_offset_fits(files, ai, i);
    lemma_offset_fits(files, ai, i + 1);
    lemma_align_exact(ai, afs_file_offset(files, ai, i));
    lemma_offset_step(files, ai, i);
    assert(afs_entries(img)[i] == afs_entry(img, i));
}

/// File `i`'s bytes lie in the archive at its start.
proof fn lemma_file_at(files: Seq<(u32, Seq<u8>)>, a: u32, i: int)
    requires
        files.len() > 0,
        afs_build_fits(files, a as int),
        is_pow2(a),
        0 <= i < files.len(),
    ensures
        afs_image(files, a as int).skip(afs_file_offset(files, a as int, i)).take(
            files[i].1.len() as int,
        ) == files[i].1,
{
    let n = files.len() as int;
    let ai = a as int;
    let img = afs_image(files, ai);
    let ds = afs_data_start(n, ai);
    let f = afs_file_bytes(files, ai, n);
    let o = afs_file_offset(files, ai, i);
    let l = files[i].1.len() as int;
    lemma_image_layout(files, a);
    lemma_file_bytes_len(files, ai, n);
    lemma_offset_step(files, ai, i);
    lemma_offset_monotone(files, ai, 0, i);
    if i < n - 1 {
        lemma_offset_monotone(files, ai, i + 1, n - 1);
        lemma_offset_step(files, ai, n - 1);
    }
    lemma_segment(files, ai, n, i);
    let seg = files[i].1 + if i + 1 < n {
        zeros(afs_file_offset(files, ai, i + 1) - o - l)
    } else {
        Seq::empty()
    };
    assert(f.subrange(o - ds, o - ds + l) =~= seg.subrange(0, l));
    assert(seg.subrange(0, l) =~= files[i].1);
    lemma_image_slice(files, a, o, o + l, files[i].1);
}

/// Entry `i` of the parsed archive reads back file `i` with its padding.
proof fn lemma_entry(files: Seq<(u32, Seq<u8>)>, a: u32, i: int)
    requires
        files.len() > 0,
        afs_build_fits(files, a as int),
        is_pow2(a),
        i < files.len() - 1 || files[files.len() - 1].1.len() as int % (a as int) == 0,
        0 <= i < files.len(),
        afs_header_result(afs_image(files, a as int)) is Ok,
        afs_count(afs_image(files, a as int)) == files.len(),
        afs_alignment(afs_image(files, a as int)) == a,
        afs_cue_id(afs_image(files, a as int), i) == (files[i].0 as int % 0x1_0000) as i32,
        afs_offset(afs_image(files, a as int), i) == afs_file_offset(files, a as int, i),
        afs_offset(afs_image(files, a as int), i + 1) == afs_file_offset(files, a as int, i + 1),
    ensures
        ({
            let img = afs_image(files, a as int);
            &&& afs_entries(img)[i].cue_id == (files[i].0 as int % 0x1_0000) as i32
            &&& afs_entries(img)[i].offset == afs_file_offset(files, a as int, i)
            &&& entry_bytes(img, afs_entries(img)[i]) == Ok::<Seq<u8>, crate::acb::afs::AfsError>(
                files[i].1 + afs_padding(files, a as int, i),
            )
        }),
{
    let n = files.len() as int;
    let ai = a as int;
    let img = afs_image(files, ai);
    let ds = afs_data_start(n, ai);
    let f = afs_file_bytes(files, ai, n);
    let last = n - 1;
    let end = afs_file_offset(files, ai, last) + files[last].1.len();
    lemma_image_layout(files, a);
    lemma_offsets_aligned(files, a, n);
    lemma_offset_fits(files, ai, i);
    lemma_offset_fits(files, ai, i + 1);
    lemma_align_exact(ai, afs_file_offset(files, ai, i));
    lemma_offset_step(files, ai, i);
    let e = afs_entries(img)[i];
    assert(e == afs_entry(img, i));
    let o = afs_file_offset(files, ai, i);
    let o1 = afs_file_offset(files, ai, i + 1);
    assert(e.offset == o);
    assert(e.size == o1 - o);
    if i == last {
        lemma_last_end(files, a);
    } else {
        lemma_offset_monotone(files, ai, i + 1, last);
    }
    assert(o1 <= end);
    lemma_offset_monotone(files, ai, 0, i);
    lemma_segment(files, ai, n, i);
    let seg = files[i].1 + afs_padding(files, ai, i);
    let seg2 = files[i].1 + if i + 1 < n {
        zeros(o1 - o - files[i].1.len())
    } else {
        Seq::empty()
    };
    assert(seg =~= seg2);
    assert(seg.len() == o1 - o);
    lemma_image_slice(files, a, o, o1, seg);
}

/// A stretch of the file area read from the archive.
proof fn lemma_image_slice(files: Seq<(u32, Seq<u8>)>, a: u32, o: int, o1: int, seg: Seq<u8>)
    requires
        files.len() > 0,
        afs_build_fits(files, a as int),
        is_pow2(a),
        afs_data_start(files.len() as int, a as int) <= o <= o1,
        o1 <= afs_image(files, a as int).len(),
        seg.len() == o1 - o,
        ({
            let ds = afs_data_start(files.len() as int, a as int);
            afs_file_bytes(files, a as int, files.len() as int).subrange(o - ds, o - ds + seg.len())
                == seg
        }),
    ensures
        afs_image(files, a as int).skip(o).take(o1 - o) == seg,
{
    let n = files.len() as int;
    let ai = a as int;
    let img = afs_image(files, ai);
    let ds = afs_data_start(n, ai);
    let f = afs_file_bytes(files, ai, n);
    lemma_image_layout(files, a);
    lemma_file_bytes_len(files, ai, n);
    assert(f.len() == img.len() - ds);
    assert(img.skip(o).take(o1 - o) =~= seg) by {
        assert forall|t: int| 0 <= t < o1 - o implies img.skip(o).take(o1 - o)[t] == seg[t] by {
            lemma_image_file_at(files, a, o + t);
            assert(img[o + t] == f[o + t - ds]);
            assert(f.subrange(o - ds, o - ds + seg.len())[t] == f[o - ds + t]);
        }
    }
}

/// The header fields of a built archive.
proof fn lemma_header_fields(files: Seq<(u32, Seq<u8>)>, a: u32)
    requires
        files.len() > 0,
        afs_build_fits(files, a as int),
        is_pow2(a),
    ensures
        ({
            let img = afs_image(files, a as int);
            &&& afs_header_result(img) is Ok
            &&& afs_count(img) == files.len()
            &&& afs_alignment(img) == a
            &&& img[5] == 4
            &&& img[6] == 2
        }),
{
    let n = files.len() as int;
    let ai = a as int;
    let img = afs_image(files, ai);
    let h = afs_header_image(files, ai);
    lemma_image_layout(files, a);
    lemma_afs_header_len(files, ai);
    assert(forall|j: int| 0 <= j < afs_header_size(n) ==> img[j] == #[trigger] img.subrange(0, afs_header_size(n))[j]);
    assert(h[0] == 0x41 && h[1] == 0x46 && h[2] == 0x53 && h[3] == 0x32);
    assert(img[0] == 0x41 && img[1] == 0x46 && img[2] == 0x53 && img[3] == 0x32);
    assert(be32(img) == AFS2_MAGIC);
    assert(img[5] == h[5] && h[5] == 4);
    assert(img[6] == h[6] && h[6] == 2);
    assert(forall|t: int| 0 <= t < 4 ==> h[8 + t] == le32_bytes(n)[t]);
    assert(forall|t: int| 0 <= t < 4 ==> img.skip(8)[t] == img[8 + t]);
    lemma_le32_roundtrip(n as u32);
    assert(afs_count(img) == n);
    assert(forall|t: int| 0 <= t < 4 ==> h[12 + t] == le32_bytes(ai)[t]);
    assert(forall|t: int| 0 <= t < 4 ==> img.skip(12)[t] == img[12 + t]);
    lemma_le32_roundtrip(a);
    assert(afs_alignment(img) == a);
    lemma_id_bytes_len(files, n);
    lemma_offset_bytes_len(files, ai, n + 1);
    assert(afs_header_result(img) is Ok);
}

/// The cue id and offset tables of a built archive.
proof fn lemma_tables(files: Seq<(u32, Seq<u8>)>, a: u32)
    requires
        files.len() > 0,
        afs_build_fits(files, a as int),
        is_pow2(a),
    ensures
        ({
            let img = afs_image(files, a as int);
            &&& forall|i: int| 0 <= i < files.len() ==> afs_cue_id(img, i) == (files[i].0 as int
                % 0x1_0000) as i32
            &&& forall|j: int| 0 <= j <= files.len() ==> afs_offset(img, j) == afs_file_offset(
                files,
                a as int,
                j,
            )
        }),
{
    let n = files.len() as int;
    let ai = a as int;
    let img = afs_image(files, ai);
    let h = afs_header_image(files, ai);
    lemma_image_layout(files, a);
    lemma_header_fields(files, a);
    lemma_afs_header_len(files, ai);
    assert(forall|j: int| 0 <= j < afs_header_size(n) ==> img[j] == #[trigger] img.subrange(0, afs_header_size(n))[j]);
    lemma_id_bytes_len(files, n);
    lemma_offset_bytes_len(files, ai, n + 1);
    assert forall|i: int| 0 <= i < n implies afs_cue_id(img, i) == (files[i].0 as int
        % 0x1_0000) as i32 by {
        lemma_id_bytes_at(files, n, i);
        let c = files[i].0 as int % 0x1_0000;
        let ids = afs_id_bytes(files, n);
        assert(h[0x10 + 2 * i] == ids[2 * i]);
        assert(h[0x10 + 2 * i + 1] == ids[2 * i + 1]);
        assert(img.skip(0x10 + i * 2)[0] == le16_bytes(c)[0]);
        assert(img.skip(0x10 + i * 2)[1] == le16_bytes(c)[1]);
        lemma_le16_roundtrip(c as u16);
    }
    assert forall|j: int| 0 <= j <= n implies afs_offset(img, j) == afs_file_offset(
        files,
        ai,
        j,
    ) by {
        lemma_offset_bytes_at(files, ai, n + 1, j);
        let o = afs_file_offset(files, ai, j);
        let at = 0x10 + n * 2 + j * 4;
        let offs = afs_offset_bytes(files, ai, n + 1);
        assert forall|t: int| 0 <= t < 4 implies img.skip(at)[t] == le32_bytes(o)[t] by {
            assert(h[at + t] == offs[4 * j + t]);
        }
        lemma_offset_fits(files, ai, j);
        lemma_le32_roundtrip(o as u32);
        let ou = o as u32;
        assert(ou & 0xFFFF_FFFFu32 == ou) by (bit_vector);
    }
}

/// The archive is the header with tables, zeros up to the data start, then
/// the file area, and ends with the last file.
proof fn lemma_image_layout(files: Seq<(u32, Seq<u8>)>, a: u32)
    requires
        files.len() > 0,
        afs_build_fits(files, a as int),
        is_pow2(a),
    ensures
        ({
            let n = files.len() as int;
            let img = afs_image(files, a as int);
            let hs = afs_header_size(n);
            let ds = afs_data_start(n, a as int);
            &&& hs <= ds
            &&& img.len() == afs_file_offset(files, a as int, n - 1) + files[n - 1].1.len()
            &&& img.len() >= ds
            &&& img.subrange(0, hs) == afs_header_image(files, a as int)
        }),
{
    let n = files.len() as int;
    let ai = a as int;
    let hs = afs_header_size(n);
    lemma_afs_header_len(files, ai);
    lemma_offset_fits(files, ai, 0);
    lemma_mask_bounds((hs + ai - 1) as u32, (ai - 1) as u32);
    lemma_file_bytes_len(files, ai, n);
    lemma_offset_monotone(files, ai, 0, n - 1);
    let img = afs_image(files, ai);
    assert(img.subrange(0, hs) =~= afs_header_image(files, ai));
}

/// A byte of the file area, read from the archive.
proof fn lemma_image_file_at(files: Seq<(u32, Seq<u8>)>, a: u32, j: int)
    requires
        files.len() > 0,
        afs_build_fits(files, a as int),
        is_pow2(a),
        afs_data_start(files.len() as int, a as int) <= j < afs_image(files, a as int).len(),
    ensures
        afs_image(files, a as int)[j] == afs_file_bytes(files, a as int, files.len() as int)[j
            - afs_data_start(files.len() as int, a as int)],
{
    lemma_image_layout(files, a);
}

/// With a power-of-two alignment the mask trick rounds up like `spec_align`,
/// and the result is a multiple of the alignment.
proof fn lemma_pow2_align(o: int, a: u32)
    requires
        is_pow2(a),
        0 <= o,
        o + a - 1 <= u32::MAX,
    ensures
        spec_align_offset(o, a as int) == spec_align(a as int, o),
        spec_align_offset(o, a as int) % (a as int) == 0,
{
    assert(a >= 1) by {
        let k = choose|k: nat| k < 32 && a as nat == pow2(k);
        vstd::arithmetic::power2::lemma_pow2_pos(k);
    }
    let x = (o + a - 1) as u32;
    let m = (a - 1) as u32;
    lemma_pow2_mask_mod(x, a, m);
    let xi = x as int;
    let ai = a as int;
    assert(xi == ai * (xi / ai) + xi % ai) by {
        vstd::arithmetic::div_mod::lemma_fundamental_div_mod(xi, ai);
    }
    assert(spec_align(ai, o) == xi / ai * ai);
    assert(xi / ai * ai == ai * (xi / ai)) by (nonlinear_arith);
    lemma_align_bounds(ai, o);
}

/// For a power of two `a = m + 1`, clearing the low bits `m` subtracts
/// `x % a`.
proof fn lemma_pow2_mask_mod(x: u32, a: u32, m: u32)
    requires
        is_pow2(a),
        m as int == a as int - 1,
    ensures
        (x & !m) as int == x as int - (x as int) % (a as int),
{
    let k = choose|k: nat| k < 32 && a as nat == pow2(k);
    lemma_u32_pow2_no_overflow(k);
    lemma_u32_low_bits_mask_is_mod(x, k);
    assert(low_bits_mask(k) as u32 == m);
    assert((x & !m) as int == x as int - (x & m) as int) by (bit_vector);
}

/// Every file offset, and the recorded end, is aligned and fits in u32.
proof fn lemma_offsets_aligned(files: Seq<(u32, Seq<u8>)>, a: u32, k: int)
    requires
        files.len() > 0,
        afs_build_fits(files, a as int),
        is_pow2(a),
        0 <= k <= files.len(),
    ensures
        forall|j: int| 0 <= j <= k ==> afs_file_offset(files, a as int, j) % (a as int) == 0,
    decreases k,
{
    let ai = a as int;
    if k == 0 {
        lemma_afs_header_len(files, ai);
        lemma_pow2_align(afs_header_size(files.len() as int), a);
    } else {
        lemma_offsets_aligned(files, a, k - 1);
        lemma_offset_fits(files, ai, k - 1);
        let o = afs_file_offset(files, ai, k - 1) + files[k - 1].1.len();
        assert(o + ai - 1 <= u32::MAX);
        lemma_pow2_align(o, a);
        assert forall|j: int| 0 <= j <= k implies afs_file_offset(files, ai, j) % ai == 0 by {
            if j < k {
            }
        }
    }
}

/// Offsets are nonnegative and fit in u32.
proof fn lemma_offset_fits(files: Seq<(u32, Seq<u8>)>, a: int, j: int)
    requires
        files.len() > 0,
        afs_build_fits(files, a),
        0 <= j <= files.len(),
    ensures
        0 <= afs_file_offset(files, a, j) <= u32::MAX,
    decreases j,
{
    if j == 0 {
        let x = afs_header_size(files.len() as int) + a - 1;
        lemma_mask_bounds(x as u32, (a - 1) as u32);
    } else {
        lemma_offset_step(files, a, j - 1);
        lemma_offset_fits(files, a, j - 1);
    }
}

/// Offsets do not decrease.
proof fn lemma_offset_monotone(files: Seq<(u32, Seq<u8>)>, a: int, i: int, j: int)
    requires
        files.len() > 0,
        afs_build_fits(files, a),
        0 <= i <= j <= files.len(),
    ensures
        afs_file_offset(files, a, i) <= afs_file_offset(files, a, j),
    decreases j - i,
{
    if i < j {
        lemma_offset_step(files, a, j - 1);
        lemma_offset_monotone(files, a, i, j - 1);
    }
}

/// Rounding up an aligned offset leaves it unchanged.
proof fn lemma_align_exact(a: int, o: int)
    requires
        a > 0,
        o >= 0,
        o % a == 0,
    ensures
        spec_align(a, o) == o,
{
    let q = o / a;
    assert(o == a * q) by {
        vstd::arithmetic::div_mod::lemma_fundamental_div_mod(o, a);
    }
    assert((o + a - 1) / a == q) by {
        vstd::arithmetic::div_mod::lemma_fundamental_div_mod_converse(o + a - 1, a, q, a - 1);
        assert(o + a - 1 == q * a + (a - 1)) by (nonlinear_arith)
            requires
                o == a * q,
        ;
    }
    assert(q * a == a * q) by (nonlinear_arith);
}

/// The end offset of a last file whose length is aligned is its exact end.
proof fn lemma_last_end(files: Seq<(u32, Seq<u8>)>, a: u32)
    requires
        files.len() > 0,
        afs_build_fits(files, a as int),
        is_pow2(a),
        files[files.len() - 1].1.len() as int % (a as int) == 0,
    ensures
        afs_file_offset(files, a as int, files.len() as int) == afs_file_offset(
            files,
            a as int,
            files.len() - 1,
        ) + files[files.len() - 1].1.len(),
{
    let ai = a as int;
    let n = files.len() as int;
    lemma_offsets_aligned(files, a, n);
    lemma_offset_fits(files, ai, n - 1);
    let o = afs_file_offset(files, ai, n - 1);
    let l = files[n - 1].1.len() as int;
    assert(o + l + ai - 1 <= u32::MAX);
    lemma_pow2_align(o + l, a);
    assert((o + l) % ai == 0) by {
        vstd::arithmetic::div_mod::lemma_add_mod_noop(o, l, ai);
    }
    lemma_align_exact(ai, o + l);
}

/// Length of the file area up to `k` files.
proof fn lemma_file_bytes_len(files: Seq<(u32, Seq<u8>)>, a: int, k: int)
    requires
        files.len() > 0,
        afs_build_fits(files, a),
        0 <= k <= files.len(),
    ensures
        k < files.len() ==> afs_file_bytes(files, a, k).len() == afs_file_offset(files, a, k)
            - afs_data_start(files.len() as int, a),
        k == files.len() ==> afs_file_bytes(files, a, k).len() == afs_file_offset(
            files,
            a,
            k - 1,
        ) + files[k - 1].1.len() - afs_data_start(files.len() as int, a),
    decreases k,
{
    if k > 0 {
        lemma_file_bytes_len(files, a, k - 1);
        lemma_offset_step(files, a, k - 1);
    }
}

/// Within the file area, file `i` and its padding start at its offset
/// relative to the data start.
proof fn lemma_segment(files: Seq<(u32, Seq<u8>)>, a: int, k: int, i: int)
    requires
        files.len() > 0,
        afs_build_fits(files, a),
        0 <= i < k <= files.len(),
    ensures
        ({
            let ds = afs_data_start(files.len() as int, a);
            let o = afs_file_offset(files, a, i);
            let seg = files[i].1 + if i + 1 < files.len() {
                zeros(afs_file_offset(files, a, i + 1) - o - files[i].1.len())
            } else {
                Seq::empty()
            };
            afs_file_bytes(files, a, k).subrange(o - ds, o - ds + seg.len()) == seg
        }),
    decreases k,
{
    lemma_file_bytes_len(files, a, k - 1);
    lemma_file_bytes_len(files, a, k);
    lemma_offset_step(files, a, i);
    if i < k - 1 {
        lemma_segment(files, a, k - 1, i);
        lemma_file_bytes_len(files, a, i + 1);
        lemma_offset_monotone(files, a, i + 1, k - 1);
        let ds = afs_data_start(files.len() as int, a);
        let o = afs_file_offset(files, a, i);
        let prev = afs_file_bytes(files, a, k - 1);
        let cur = afs_file_bytes(files, a, k);
        let seg = files[i].1 + if i + 1 < files.len() {
            zeros(afs_file_offset(files, a, i + 1) - o - files[i].1.len())
        } else {
            Seq::empty()
        };
        assert(cur.subrange(o - ds, o - ds + seg.len()) =~= prev.subrange(o - ds, o - ds + seg.len()));
    } else {
        let ds = afs_data_start(files.len() as int, a);
        let o = afs_file_offset(files, a, i);
        let cur = afs_file_bytes(files, a, k);
        let seg = files[i].1 + if i + 1 < files.len() {
            zeros(afs_file_offset(files, a, i + 1) - o - files[i].1.len())
        } else {
            Seq::empty()
        };
        assert(cur.subrange(o - ds, o - ds + seg.len()) =~= seg);
    }
}

/// The cue id table holds each cue id at twice its index.
proof fn lemma_id_bytes_at(files: Seq<(u32, Seq<u8>)>, k: int, i: int)
    requires
        0 <= i < k,
    ensures
        afs_id_bytes(files, k)[2 * i] == le16_bytes(files[i].0 as int % 0x1_0000)[0],
        afs_id_bytes(files, k)[2 * i + 1] == le16_bytes(files[i].0 as int % 0x1_0000)[1],
    decreases k,
{
    lemma_id_bytes_len(files, k - 1);
    if i < k - 1 {
        lemma_id_bytes_at(files, k - 1, i);
    }
}

/// The offset table holds offset `j` at four times its index.
proof fn lemma_offset_bytes_at(files: Seq<(u32, Seq<u8>)>, a: int, k: int, j: int)
    requires
        0 <= j < k,
    ensures
        forall|t: int|
            0 <= t < 4 ==> afs_offset_bytes(files, a, k)[4 * j + t] == le32_bytes(
                afs_file_offset(files, a, j),
            )[t],
    decreases k,
{
    lemma_offset_bytes_len(files, a, k - 1);
    if j < k - 1 {
        lemma_offset_bytes_at(files, a, k - 1, j);
    }
}

} // verus!
