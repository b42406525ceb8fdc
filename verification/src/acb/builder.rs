//! Builders for AFS2 archives, @UTF tables and ACB containers.

use crate::acb::consts::{
    COLUMN_FLAG_DEFAULT, COLUMN_FLAG_NAME, COLUMN_FLAG_ROW, COLUMN_TYPE_1BYTE, COLUMN_TYPE_1BYTE2,
    COLUMN_TYPE_2BYTE, COLUMN_TYPE_2BYTE2, COLUMN_TYPE_4BYTE, COLUMN_TYPE_4BYTE2,
    COLUMN_TYPE_8BYTE, COLUMN_TYPE_DATA, COLUMN_TYPE_FLOAT, COLUMN_TYPE_STRING,
    WAVEFORM_ENCODE_TYPE_ADX, WAVEFORM_ENCODE_TYPE_HCA,
};
use crate::acb::table::{value_type, ColumnDef, ColumnView, TableView, UtfTableBuilder};
use crate::acb::utf::{Value, ValueView};
use crate::reader::{be16_bytes, be32_bytes, be64_bytes, le16_bytes, le32_bytes};
use vstd::prelude::*;
use crate::acb::strings::ascii_faithful;

verus! {

/// Errors of the builders.
#[derive(Debug, Clone, PartialEq, Eq)]
pub enum BuilderError {
    /// No audio tracks (or files) were given.
    NoTracks,
    /// A track name is too long.
    NameTooLong(String),
    /// The audio data is not usable.
    InvalidAudioData,
    /// The audio format is not supported.
    UnsupportedFormat,
}

impl BuilderError {
    /// Human-readable message.
    pub fn message(&self) -> (r: String)
        ensures
            r@ == match self {
                BuilderError::NoTracks => "No audio tracks provided"@,
                BuilderError::NameTooLong(name) => "Track name too long: "@ + name@,
                BuilderError::InvalidAudioData => "Invalid audio data"@,
                BuilderError::UnsupportedFormat => "Unsupported audio format"@,
            },
    {
        match self {
            BuilderError::NoTracks => String::from_str("No audio tracks provided"),
            BuilderError::NameTooLong(name) => {
                let mut m = String::from_str("Track name too long: ");
                m.append(name.as_str());
                m
            },
            BuilderError::InvalidAudioData => String::from_str("Invalid audio data"),
            BuilderError::UnsupportedFormat => String::from_str("Unsupported audio format"),
        }
    }
}

// ---------------------------------------------------------------------------
// Byte writers
// ---------------------------------------------------------------------------

/// Append a big-endian u16.
pub fn write_u16_be(w: &mut Vec<u8>, v: u16)
    ensures
        final(w)@ == old(w)@ + be16_bytes(v as int),
{
    w.push((v / 0x100 % 0x100) as u8);
    w.push((v % 0x100) as u8);
    proof {
        assert(final(w)@ =~= old(w)@ + be16_bytes(v as int));
    }
}

/// Append a big-endian i16 (its two's-complement bit pattern).
pub fn write_i16_be(w: &mut Vec<u8>, v: i16)
    ensures
        final(w)@ == old(w)@ + be16_bytes(two16(v as int)),
{
    let u: u16 = if v < 0 { (v as i32 + 0x1_0000) as u16 } else { v as u16 };
    write_u16_be(w, u);
}

/// Append a big-endian u32.
pub fn write_u32_be(w: &mut Vec<u8>, v: u32)
    ensures
        final(w)@ == old(w)@ + be32_bytes(v as int),
{
    w.push((v / 0x100_0000 % 0x100) as u8);
    w.push((v / 0x1_0000 % 0x100) as u8);
    w.push((v / 0x100 % 0x100) as u8);
    w.push((v % 0x100) as u8);
    proof {
        assert(final(w)@ =~= old(w)@ + be32_bytes(v as int));
    }
}

/// Append a big-endian i32 (its two's-complement bit pattern).
pub fn write_i32_be(w: &mut Vec<u8>, v: i32)
    ensures
        final(w)@ == old(w)@ + be32_bytes(two32(v as int)),
{
    let u: u32 = if v < 0 { (v as i64 + 0x1_0000_0000) as u32 } else { v as u32 };
    write_u32_be(w, u);
}

/// Append a big-endian u64.
pub fn write_u64_be(w: &mut Vec<u8>, v: u64)
    ensures
        final(w)@ == old(w)@ + be64_bytes(v as int),
{
    write_u32_be(w, (v / 0x1_0000_0000 % 0x1_0000_0000) as u32);
    write_u32_be(w, (v % 0x1_0000_0000) as u32);
    proof {
        assert(final(w)@ =~= old(w)@ + be64_bytes(v as int));
    }
}

/// Append an f32 given by its bit pattern, big-endian.
pub fn write_f32_be(w: &mut Vec<u8>, bits: u32)
    ensures
        final(w)@ == old(w)@ + be32_bytes(bits as int),
{
    write_u32_be(w, bits);
}

/// Append a little-endian u16.
pub fn write_u16_le(w: &mut Vec<u8>, v: u16)
    ensures
        final(w)@ == old(w)@ + le16_bytes(v as int),
{
    w.push((v % 0x100) as u8);
    w.push((v / 0x100 % 0x100) as u8);
    proof {
        assert(final(w)@ =~= old(w)@ + le16_bytes(v as int));
    }
}

/// Append a little-endian u32.
pub fn write_u32_le(w: &mut Vec<u8>, v: u32)
    ensures
        final(w)@ == old(w)@ + le32_bytes(v as int),
{
    w.push((v % 0x100) as u8);
    w.push((v / 0x100 % 0x100) as u8);
    w.push((v / 0x1_0000 % 0x100) as u8);
    w.push((v / 0x100_0000 % 0x100) as u8);
    proof {
        assert(final(w)@ =~= old(w)@ + le32_bytes(v as int));
    }
}

/// The 16-bit two's-complement pattern of a signed value.
pub open spec fn two16(v: int) -> int {
    if v < 0 { v + 0x1_0000 } else { v }
}

/// The 32-bit two's-complement pattern of a signed value.
pub open spec fn two32(v: int) -> int {
    if v < 0 { v + 0x1_0000_0000 } else { v }
}

/// `n` zero bytes.
pub open spec fn zeros(n: int) -> Seq<u8> {
    Seq::new(n as nat, |i: int| 0u8)
}

/// Append `n` zero bytes.
fn push_zeros(w: &mut Vec<u8>, n: u32)
    ensures
        final(w)@ == old(w)@ + zeros(n as int),
{
    let mut i: u32 = 0;
    while i < n
        invariant
            i <= n,
            w@ == old(w)@ + zeros(i as int),
        decreases n - i,
    {
        w.push(0);
        i = i + 1;
        proof {
            assert(w@ =~= old(w)@ + zeros(i as int));
        }
    }
}

// ---------------------------------------------------------------------------
// Track input
// ---------------------------------------------------------------------------

/// Encode type guessed from the first bytes: ADX when they start with
/// 0x80 0x00 or are 00 00 00 80, HCA otherwise (also for short data).
pub open spec fn spec_detect_encode_type(d: Seq<u8>) -> i32 {
    if d.len() >= 4 && ((d[0] == 0x80 && d[1] == 0x00) || (d[0] == 0 && d[1] == 0 && d[2] == 0
        && d[3] == 0x80)) {
        WAVEFORM_ENCODE_TYPE_ADX
    } else {
        WAVEFORM_ENCODE_TYPE_HCA
    }
}

/// Audio track input for ACB building.
#[derive(Debug, Clone)]
pub struct TrackInput {
    pub name: String,
    pub cue_id: u32,
    pub data: Vec<u8>,
    pub encode_type: i32,
}

impl TrackInput {
    pub fn new(name: &str, cue_id: u32, data: Vec<u8>) -> (r: Self)
        ensures
            r.name@ == name@,
            r.cue_id == cue_id,
            r.data@ == data@,
            r.encode_type == spec_detect_encode_type(data@),
    {
        let encode_type = Self::detect_encode_type(data.as_slice());
        TrackInput { name: name.to_owned(), cue_id, data, encode_type }
    }

    pub fn detect_encode_type(data: &[u8]) -> (r: i32)
        ensures
            r == spec_detect_encode_type(data@),
    {
        if data.len() < 4 {
            return WAVEFORM_ENCODE_TYPE_HCA;
        }
        if (data[0] == 0x80 && data[1] == 0x00) || (data[0] == 0 && data[1] == 0 && data[2] == 0
            && data[3] == 0x80) {
            WAVEFORM_ENCODE_TYPE_ADX
        } else {
            WAVEFORM_ENCODE_TYPE_HCA
        }
    }
}

// ---------------------------------------------------------------------------
// AFS2 archive builder
// ---------------------------------------------------------------------------

/// `offset` rounded up with the mask trick `(o + a - 1) & !(a - 1)`.
pub open spec fn spec_align_offset(offset: int, alignment: int) -> int {
    ((offset + alignment - 1) as u32 & !((alignment - 1) as u32)) as int
}

/// Size of the header with both tables for `n` files.
pub open spec fn afs_header_size(n: int) -> int {
    0x10 + 2 * n + 4 * (n + 1)
}

/// Where the first file starts.
pub open spec fn afs_data_start(n: int, a: int) -> int {
    spec_align_offset(afs_header_size(n), a)
}

/// Start of file `i`; for `i == n` the aligned end recorded in the table.
pub open spec fn afs_file_offset(files: Seq<(u32, Seq<u8>)>, a: int, i: int) -> int
    decreases i,
{
    if i <= 0 {
        afs_data_start(files.len() as int, a)
    } else {
        spec_align_offset(afs_file_offset(files, a, i - 1) + files[i - 1].1.len(), a)
    }
}

/// The offsets and sizes stay within u32 and the alignment is nonzero.
pub open spec fn afs_build_fits(files: Seq<(u32, Seq<u8>)>, a: int) -> bool {
    &&& a >= 1
    &&& afs_header_size(files.len() as int) + a - 1 <= u32::MAX
    &&& forall|i: int|
        0 <= i < files.len() ==> #[trigger] afs_file_offset(files, a, i) + files[i].1.len() + a - 1
            <= u32::MAX
}

/// The cue id table: each cue id as a little-endian u16.
pub open spec fn afs_id_bytes(files: Seq<(u32, Seq<u8>)>, k: int) -> Seq<u8>
    decreases k,
{
    if k <= 0 {
        Seq::empty()
    } else {
        afs_id_bytes(files, k - 1) + le16_bytes(files[k - 1].0 as int % 0x1_0000)
    }
}

/// The offset table: the first `k` offsets as little-endian u32.
pub open spec fn afs_offset_bytes(files: Seq<(u32, Seq<u8>)>, a: int, k: int) -> Seq<u8>
    decreases k,
{
    if k <= 0 {
        Seq::empty()
    } else {
        afs_offset_bytes(files, a, k - 1) + le32_bytes(afs_file_offset(files, a, k - 1))
    }
}

/// The first `k` files, each but the last followed by zeros up to the next
/// file's offset.
pub open spec fn afs_file_bytes(files: Seq<(u32, Seq<u8>)>, a: int, k: int) -> Seq<u8>
    decreases k,
{
    if k <= 0 {
        Seq::empty()
    } else {
        afs_file_bytes(files, a, k - 1) + files[k - 1].1 + if k < files.len() {
            zeros(
                afs_file_offset(files, a, k) - afs_file_offset(files, a, k - 1) - files[k
                    - 1].1.len(),
            )
        } else {
            Seq::empty()
        }
    }
}

/// The fixed start of an archive: "AFS2" and the version bytes 01 04 02 00
/// (4-byte offsets, 2-byte cue ids).
pub open spec fn afs_magic_version() -> Seq<u8> {
    seq![0x41u8, 0x46, 0x53, 0x32, 0x01, 0x04, 0x02, 0x00]
}

/// The header with both tables.
pub open spec fn afs_header_image(files: Seq<(u32, Seq<u8>)>, a: int) -> Seq<u8> {
    afs_magic_version() + le32_bytes(files.len() as int) + le32_bytes(a) + afs_id_bytes(
        files,
        files.len() as int,
    ) + afs_offset_bytes(files, a, files.len() as int + 1)
}

/// The whole archive.
pub open spec fn afs_image(files: Seq<(u32, Seq<u8>)>, a: int) -> Seq<u8> {
    afs_header_image(files, a) + zeros(
        afs_data_start(files.len() as int, a) - afs_header_size(files.len() as int),
    ) + afs_file_bytes(files, a, files.len() as int)
}

/// Builder for AFS2 (AWB) archives.
pub struct AfsArchiveBuilder {
    alignment: u32,
    files: Vec<(u32, Vec<u8>)>,
}

impl AfsArchiveBuilder {
    /// The alignment of file starts.
    pub closed spec fn alignment(&self) -> u32 {
        self.alignment
    }

    /// The files added so far, as (cue id, data).
    pub closed spec fn files(&self) -> Seq<(u32, Seq<u8>)> {
        self.files@.map_values(|f: (u32, Vec<u8>)| (f.0, f.1@))
    }

    pub fn new() -> (r: Self)
        ensures
            r.alignment() == 32,
            r.files() == Seq::<(u32, Seq<u8>)>::empty(),
    {
        let r = AfsArchiveBuilder { alignment: 32, files: Vec::new() };
        assert(r.files() =~= Seq::<(u32, Seq<u8>)>::empty());
        r
    }

    pub fn with_alignment(self, alignment: u32) -> (r: Self)
        ensures
            r.alignment() == alignment,
            r.files() == self.files(),
    {
        AfsArchiveBuilder { alignment, files: self.files }
    }

    pub fn add_file(&mut self, cue_id: u32, data: Vec<u8>)
        ensures
            final(self).alignment() == old(self).alignment(),
            final(self).files() == old(self).files().push((cue_id, data@)),
    {
        self.files.push((cue_id, data));
        proof {
            assert(self.files() =~= old(self).files().push((cue_id, data@)));
        }
    }

    /// Round an offset up with the mask trick.
    pub fn align_offset(offset: u32, alignment: u32) -> (r: u32)
        requires
            alignment >= 1,
            offset + alignment - 1 <= u32::MAX,
        ensures
            r == spec_align_offset(offset as int, alignment as int),
            offset <= r <= offset + alignment - 1,
    {
        let x: u32 = offset + (alignment - 1);
        let m: u32 = alignment - 1;
        let r = x & !m;
        proof {
            lemma_mask_bounds(x, m);
        }
        r
    }

    /// Whether the archive's offsets fit in 32 bits, as `build` requires
    /// of a builder with files.
    pub fn sizes_fit(&self) -> (r: bool)
        ensures
            r == (self.files().len() > 0 ==> afs_build_fits(self.files(), self.alignment() as int)),
    {
        let ghost files = self.files();
        let ghost a = self.alignment as int;
        let n: usize = self.files.len();
        if n == 0 {
            return true;
        }
        if self.alignment == 0 {
            return false;
        }
        let header: u128 = 0x10 + 2 * (n as u128) + 4 * (n as u128 + 1);
        if header + self.alignment as u128 - 1 > 0xFFFF_FFFF {
            return false;
        }
        let mut current: u32 = Self::align_offset(header as u32, self.alignment);
        let mut i: usize = 0;
        while i < n
            invariant
                n == files.len(),
                files == self.files(),
                a == self.alignment,
                a >= 1,
                afs_header_size(n as int) + a - 1 <= u32::MAX,
                i <= n,
                current == afs_file_offset(files, a, i as int),
                forall|j: int|
                    0 <= j < i ==> #[trigger] afs_file_offset(files, a, j) + files[j].1.len() + a - 1
                        <= u32::MAX,
            decreases n - i,
        {
            let len = self.files[i].1.len();
            if current as u128 + len as u128 + self.alignment as u128 - 1 > 0xFFFF_FFFF {
                return false;
            }
            current = Self::align_offset(current + len as u32, self.alignment);
            i = i + 1;
        }
        true
    }

    /// Build the archive: header, cue id table, offset table, then each
    /// file at its aligned offset, zero-padded up to the next one.
    pub fn build(&self) -> (r: Result<Vec<u8>, BuilderError>)
        requires
            self.files().len() > 0 ==> afs_build_fits(self.files(), self.alignment() as int),
        ensures
            self.files().len() == 0 ==> r == Err::<Vec<u8>, BuilderError>(BuilderError::NoTracks),
            self.files().len() > 0 ==> (r matches Ok(v) && v@ == afs_image(
                self.files(),
                self.alignment() as int,
            )),
    {
        if self.files.len() == 0 {
            return Err(BuilderError::NoTracks);
        }
        let ghost files = self.files();
        let ghost a = self.alignment as int;
        let n: usize = self.files.len();
        proof {
            assert(afs_header_size(n as int) <= u32::MAX);
        }
        let file_count: u32 = n as u32;
        let id_table_size: u32 = file_count * 2;
        let offset_table_size: u32 = (file_count + 1) * 4;
        let header_size: u32 = 0x10 + id_table_size + offset_table_size;
        let data_start = Self::align_offset(header_size, self.alignment);

        // File offsets, then the aligned end.
        let mut file_offsets: Vec<u32> = Vec::new();
        let mut current_offset: u32 = data_start;
        let mut i: usize = 0;
        while i < n
            invariant
                n == files.len(),
                files == self.files(),
                a == self.alignment,
                afs_build_fits(files, a),
                i <= n,
                file_offsets@.len() == i,
                current_offset == afs_file_offset(files, a, i as int),
                forall|j: int| 0 <= j < i ==> file_offsets@[j] == afs_file_offset(files, a, j),
            decreases n - i,
        {
            file_offsets.push(current_offset);
            let len = self.files[i].1.len();
            proof {
                assert(afs_file_offset(files, a, i as int) + files[i as int].1.len() + a - 1
                    <= u32::MAX);
            }
            current_offset = Self::align_offset(current_offset + len as u32, self.alignment);
            i = i + 1;
        }
        file_offsets.push(current_offset);

        let mut out: Vec<u8> = Vec::new();
        out.push(0x41);
        out.push(0x46);
        out.push(0x53);
        out.push(0x32);
        out.push(0x01);
        out.push(0x04);
        out.push(0x02);
        out.push(0x00);
        write_u32_le(&mut out, file_count);
        write_u32_le(&mut out, self.alignment);
        proof {
            assert(out@ =~= afs_magic_version() + le32_bytes(n as int) + le32_bytes(a)
                + afs_id_bytes(files, 0));
        }

        let mut i: usize = 0;
        while i < n
            invariant
                n == files.len(),
                files == self.files(),
                i <= n,
                out@ == afs_magic_version() + le32_bytes(n as int) + le32_bytes(a) + afs_id_bytes(
                    files,
                    i as int,
                ),
            decreases n - i,
        {
            write_u16_le(&mut out, (self.files[i].0 % 0x1_0000) as u16);
            i = i + 1;
            proof {
                assert(out@ =~= afs_magic_version() + le32_bytes(n as int) + le32_bytes(a)
                    + afs_id_bytes(files, i as int));
            }
        }

        let ghost ids = out@;
        let mut k: usize = 0;
        while k < n + 1
            invariant
                n == files.len(),
                n <= 0xFFFF_FFFF,
                k <= n + 1,
                file_offsets@.len() == n + 1,
                forall|j: int| 0 <= j <= n ==> file_offsets@[j] == afs_file_offset(files, a, j),
                out@ == ids + afs_offset_bytes(files, a, k as int),
            decreases n + 1 - k,
        {
            write_u32_le(&mut out, file_offsets[k]);
            k = k + 1;
            proof {
                assert(out@ =~= ids + afs_offset_bytes(files, a, k as int));
            }
        }
        proof {
            assert(out@ =~= afs_header_image(files, a));
            lemma_afs_header_len(files, a);
        }

        let current_pos: u32 = out.len() as u32;
        push_zeros(&mut out, data_start - current_pos);
        let ghost head = out@;

        let mut i: usize = 0;
        while i < n
            invariant
                n == files.len(),
                files == self.files(),
                a == self.alignment,
                afs_build_fits(files, a),
                0 <= i <= n,
                file_offsets@.len() == n + 1,
                forall|j: int| 0 <= j <= n ==> file_offsets@[j] == afs_file_offset(files, a, j),
                head.len() == afs_data_start(n as int, a),
                out@ == head + afs_file_bytes(files, a, i as int),
                i < n ==> out@.len() == afs_file_offset(files, a, i as int),
            decreases n - i,
        {
            out.extend_from_slice(self.files[i].1.as_slice());
            proof {
                lemma_offset_step(files, a, i as int);
            }
            if i < n - 1 {
                let current_pos: u32 = out.len() as u32;
                let next_offset = file_offsets[i + 1];
                push_zeros(&mut out, next_offset - current_pos);
            }
            i = i + 1;
            proof {
                assert(out@ =~= head + afs_file_bytes(files, a, i as int));
            }
        }
        Ok(out)
    }
}

/// `x & !m` lies between `x - m` and `x`.
pub(crate) proof fn lemma_mask_bounds(x: u32, m: u32)
    ensures
        (x & !m) <= x,
        (x & !m) + m >= x,
{
    assert((x & !m) <= x) by (bit_vector);
    assert((x & !m) as int + m as int >= x as int) by (bit_vector);
}

/// The next offset is at or after the end of the current file.
pub(crate) proof fn lemma_offset_step(files: Seq<(u32, Seq<u8>)>, a: int, i: int)
    requires
        afs_build_fits(files, a),
        0 <= i < files.len(),
    ensures
        afs_file_offset(files, a, i) + files[i].1.len() <= afs_file_offset(files, a, i + 1),
        afs_file_offset(files, a, i + 1) <= u32::MAX,
{
    let x = afs_file_offset(files, a, i) + files[i].1.len() + a - 1;
    assert(x <= u32::MAX);
    lemma_mask_bounds(x as u32, (a - 1) as u32);
}

/// The header with both tables has the announced size.
pub(crate) proof fn lemma_afs_header_len(files: Seq<(u32, Seq<u8>)>, a: int)
    ensures
        afs_header_image(files, a).len() == afs_header_size(files.len() as int),
{
    lemma_id_bytes_len(files, files.len() as int);
    lemma_offset_bytes_len(files, a, files.len() as int + 1);
}

pub(crate) proof fn lemma_id_bytes_len(files: Seq<(u32, Seq<u8>)>, k: int)
    requires
        k >= 0,
    ensures
        afs_id_bytes(files, k).len() == 2 * k,
    decreases k,
{
    if k > 0 {
        lemma_id_bytes_len(files, k - 1);
    }
}

pub(crate) proof fn lemma_offset_bytes_len(files: Seq<(u32, Seq<u8>)>, a: int, k: int)
    requires
        k >= 0,
    ensures
        afs_offset_bytes(files, a, k).len() == 4 * k,
    decreases k,
{
    if k > 0 {
        lemma_offset_bytes_len(files, a, k - 1);
    }
}

// ---------------------------------------------------------------------------
// ACB builder
// ---------------------------------------------------------------------------

/// A per-row column.
pub open spec fn row_col(name: Seq<char>, typ: u8) -> ColumnView {
    ColumnView { name, typ, flag: COLUMN_FLAG_NAME | COLUMN_FLAG_ROW, constant: None }
}

/// A constant column, typed after its value.
pub open spec fn const_col(name: Seq<char>, v: ValueView) -> ColumnView {
    ColumnView {
        name,
        typ: value_type(v),
        flag: COLUMN_FLAG_NAME | COLUMN_FLAG_DEFAULT,
        constant: Some(v),
    }
}

/// Row `i` of the cue table: the cue id, reference type 3 (synth) and the
/// synth index.
pub open spec fn cue_row(t: TrackInput, i: int) -> Seq<(Seq<char>, ValueView)> {
    seq![
        ("CueId"@, ValueView::U32(t.cue_id)),
        ("ReferenceType"@, ValueView::U8(3)),
        ("ReferenceIndex"@, ValueView::U16(i as u16)),
    ]
}

/// The cue table: one row per track.
pub open spec fn cue_table_view(tracks: Seq<TrackInput>) -> TableView {
    TableView {
        name: "CueTable"@,
        columns: seq![
            row_col("CueId"@, COLUMN_TYPE_4BYTE),
            row_col("ReferenceType"@, COLUMN_TYPE_1BYTE),
            row_col("ReferenceIndex"@, COLUMN_TYPE_2BYTE),
        ],
        rows: Seq::new(tracks.len(), |i: int| cue_row(tracks[i], i)),
    }
}

/// Row `i` of the cue name table: the cue index and the track's name.
pub open spec fn cue_name_row(t: TrackInput, i: int) -> Seq<(Seq<char>, ValueView)> {
    seq![("CueIndex"@, ValueView::U16(i as u16)), ("CueName"@, ValueView::Str(t.name@))]
}

/// The cue name table: one row per track.
pub open spec fn cue_name_table_view(tracks: Seq<TrackInput>) -> TableView {
    TableView {
        name: "CueNameTable"@,
        columns: seq![row_col("CueIndex"@, COLUMN_TYPE_2BYTE), row_col("CueName"@, COLUMN_TYPE_STRING)],
        rows: Seq::new(tracks.len(), |i: int| cue_name_row(tracks[i], i)),
    }
}

/// Row `i` of the waveform table: its id, encode type, whether it streams,
/// and its index in the memory or the streamed archive (0xFFFF in the
/// other).
pub open spec fn waveform_row(t: TrackInput, i: int, streaming: bool) -> Seq<
    (Seq<char>, ValueView),
> {
    seq![
        ("Id"@, ValueView::U16(i as u16)),
        ("EncodeType"@, ValueView::U8(t.encode_type as u8)),
        ("Streaming"@, ValueView::U8(if streaming { 1u8 } else { 0u8 })),
        ("MemoryAwbId"@, ValueView::U16(if streaming { 0xFFFFu16 } else { i as u16 })),
        ("StreamAwbId"@, ValueView::U16(if streaming { i as u16 } else { 0xFFFFu16 })),
    ]
}

/// The waveform table: one row per track.
pub open spec fn waveform_table_view(tracks: Seq<TrackInput>, streaming: bool) -> TableView {
    TableView {
        name: "WaveformTable"@,
        columns: seq![
            row_col("Id"@, COLUMN_TYPE_2BYTE),
            row_col("EncodeType"@, COLUMN_TYPE_1BYTE),
            row_col("Streaming"@, COLUMN_TYPE_1BYTE),
            row_col("MemoryAwbId"@, COLUMN_TYPE_2BYTE),
            row_col("StreamAwbId"@, COLUMN_TYPE_2BYTE),
        ],
        rows: Seq::new(tracks.len(), |i: int| waveform_row(tracks[i], i, streaming)),
    }
}

/// Row `i` of the synth table: a single-waveform synth with no voice
/// limit group, referring to waveform `i` (item count 1, then the index,
/// both big-endian u16).
pub open spec fn synth_row(i: int) -> Seq<(Seq<char>, ValueView)> {
    seq![
        ("Type"@, ValueView::U8(0)),
        ("VoiceLimitGroupName"@, ValueView::Str(Seq::empty())),
        ("ReferenceItems"@, ValueView::Data(be16_bytes(1) + be16_bytes((i as u16) as int))),
    ]
}

/// The synth table: one row per track.
pub open spec fn synth_table_view(n: int) -> TableView {
    TableView {
        name: "SynthTable"@,
        columns: seq![
            row_col("Type"@, COLUMN_TYPE_1BYTE),
            row_col("VoiceLimitGroupName"@, COLUMN_TYPE_STRING),
            row_col("ReferenceItems"@, COLUMN_TYPE_DATA),
        ],
        rows: Seq::new(n as nat, |i: int| synth_row(i)),
    }
}

/// The archive files of the tracks: (cue id, data).
pub open spec fn awb_files(tracks: Seq<TrackInput>) -> Seq<(u32, Seq<u8>)> {
    tracks.map_values(|t: TrackInput| (t.cue_id, t.data@))
}

/// The single-row "Header" table of an ACB: identifier, size, version,
/// type, target, volume 1.0, the cue count cut to 16 bits, the four
/// tables, and the archive embedded ("AwbFile") or, when streamed, a zero
/// "StreamAwbHash" of 16 bytes.
pub open spec fn header_table_view(tracks: Seq<TrackInput>, version: u32, streaming: bool) -> TableView {
    TableView {
        name: "Header"@,
        columns: seq![
            const_col("FileIdentifier"@, ValueView::U32(0)),
            const_col("Size"@, ValueView::U32(0)),
            const_col("Version"@, ValueView::U32(version)),
            const_col("Type"@, ValueView::U8(0)),
            const_col("Target"@, ValueView::U8(0)),
            const_col("AcbVolume"@, ValueView::F32(0x3F80_0000)),
            const_col("NumCueLimit"@, ValueView::U16(tracks.len() as u16)),
            const_col("CueTable"@, ValueView::Data(cue_table_view(tracks).image())),
            const_col("CueNameTable"@, ValueView::Data(cue_name_table_view(tracks).image())),
            const_col(
                "WaveformTable"@,
                ValueView::Data(waveform_table_view(tracks, streaming).image()),
            ),
            const_col("SynthTable"@, ValueView::Data(synth_table_view(tracks.len() as int).image())),
            if streaming {
                const_col("StreamAwbHash"@, ValueView::Data(zeros(16)))
            } else {
                const_col("AwbFile"@, ValueView::Data(afs_image(awb_files(tracks), 32)))
            },
        ],
        rows: seq![Seq::empty()],
    }
}

/// A (name, value) row entry.
fn entry(name: &str, v: Value) -> (e: (String, Value))
    ensures
        e.0@ == name@,
        e.1 == v,
{
    (name.to_owned(), v)
}

/// Builder for ACB files.
pub struct AcbBuilder {
    tracks: Vec<TrackInput>,
    acb_version: u32,
    streaming_awb: bool,
}

impl AcbBuilder {
    /// The tracks added so far.
    pub closed spec fn tracks(&self) -> Seq<TrackInput> {
        self.tracks@
    }

    /// The ACB version written in the header.
    pub closed spec fn version(&self) -> u32 {
        self.acb_version
    }

    /// Whether the archive is kept apart from the ACB.
    pub closed spec fn streaming(&self) -> bool {
        self.streaming_awb
    }

    /// The sizes all tables and the archive compute in 32 bits stay within
    /// them.
    pub open spec fn fits(&self) -> bool {
        &&& cue_table_view(self.tracks()).fits()
        &&& cue_name_table_view(self.tracks()).fits()
        &&& waveform_table_view(self.tracks(), self.streaming()).fits()
        &&& synth_table_view(self.tracks().len() as int).fits()
        &&& afs_build_fits(awb_files(self.tracks()), 32)
        &&& header_table_view(self.tracks(), self.version(), self.streaming()).fits()
    }

    pub fn new() -> (r: Self)
        ensures
            r.tracks() == Seq::<TrackInput>::empty(),
            r.version() == 0x0130_0500,
            !r.streaming(),
    {
        AcbBuilder { tracks: Vec::new(), acb_version: 0x0130_0500, streaming_awb: false }
    }

    pub fn add_track(&mut self, track: TrackInput)
        ensures
            final(self).tracks() == old(self).tracks().push(track),
            final(self).version() == old(self).version(),
            final(self).streaming() == old(self).streaming(),
    {
        self.tracks.push(track);
    }

    /// Keep the archive apart from the ACB (true) or embed it (false).
    pub fn streaming_awb(self, streaming: bool) -> (r: Self)
        ensures
            r.tracks() == self.tracks(),
            r.version() == self.version(),
            r.streaming() == streaming,
    {
        AcbBuilder { tracks: self.tracks, acb_version: self.acb_version, streaming_awb: streaming }
    }

    /// The cue table of the tracks, ready to build.
    fn make_cue_table(&self) -> (table: UtfTableBuilder)
        ensures
            table@ == cue_table_view(self.tracks()),
    {
        let mut table = UtfTableBuilder::new("CueTable");
        table.add_column(ColumnDef::per_row("CueId", COLUMN_TYPE_4BYTE));
        table.add_column(ColumnDef::per_row("ReferenceType", COLUMN_TYPE_1BYTE));
        table.add_column(ColumnDef::per_row("ReferenceIndex", COLUMN_TYPE_2BYTE));
        let ghost tracks = self.tracks();
        let ghost target = cue_table_view(tracks);
        proof {
            assert(table@.columns =~= target.columns);
            assert(table@.rows =~= Seq::new(0, |j: int| cue_row(tracks[j], j)));
        }
        let mut i: usize = 0;
        while i < self.tracks.len()
            invariant
                tracks == self.tracks(),
                i <= tracks.len(),
                table@.name == target.name,
                table@.columns == target.columns,
                table@.rows == Seq::new(i as nat, |j: int| cue_row(tracks[j], j)),
            decreases tracks.len() - i,
        {
            let track = &self.tracks[i];
            let mut row: Vec<(String, Value)> = Vec::new();
            row.push(entry("CueId", Value::U32(track.cue_id)));
            row.push(entry("ReferenceType", Value::U8(3)));
            row.push(entry("ReferenceIndex", Value::U16(i as u16)));
            let ghost before = table@.rows;
            table.add_row(row);
            proof {
                assert(crate::acb::table::row_view(row@) =~= cue_row(tracks[i as int], i as int));
                assert(table@.rows =~= before.push(crate::acb::table::row_view(row@)));
                assert(table@.rows =~= Seq::new((i + 1) as nat, |j: int| cue_row(tracks[j], j)));
            }
            i = i + 1;
        }
        proof {
            assert(table@ == target);
        }
        table
    }

    fn build_cue_table(&self) -> (r: Vec<u8>)
        requires
            cue_table_view(self.tracks()).fits(),
        ensures
            r@ == cue_table_view(self.tracks()).image(),
    {
        let table = self.make_cue_table();
        table.build()
    }

    /// The cue name table of the tracks, ready to build.
    fn make_cue_name_table(&self) -> (table: UtfTableBuilder)
        ensures
            table@ == cue_name_table_view(self.tracks()),
    {
        let mut table = UtfTableBuilder::new("CueNameTable");
        table.add_column(ColumnDef::per_row("CueIndex", COLUMN_TYPE_2BYTE));
        table.add_column(ColumnDef::per_row("CueName", COLUMN_TYPE_STRING));
        let ghost tracks = self.tracks();
        let ghost target = cue_name_table_view(tracks);
        proof {
            assert(table@.columns =~= target.columns);
            assert(table@.rows =~= Seq::new(0, |j: int| cue_name_row(tracks[j], j)));
        }
        let mut i: usize = 0;
        while i < self.tracks.len()
            invariant
                tracks == self.tracks(),
                i <= tracks.len(),
                table@.name == target.name,
                table@.columns == target.columns,
                table@.rows == Seq::new(i as nat, |j: int| cue_name_row(tracks[j], j)),
            decreases tracks.len() - i,
        {
            let track = &self.tracks[i];
            let mut row: Vec<(String, Value)> = Vec::new();
            row.push(entry("CueIndex", Value::U16(i as u16)));
            row.push(entry("CueName", Value::String(track.name.clone())));
            let ghost before = table@.rows;
            table.add_row(row);
            proof {
                assert(crate::acb::table::row_view(row@) =~= cue_name_row(
                    tracks[i as int],
                    i as int,
                ));
                assert(table@.rows =~= before.push(crate::acb::table::row_view(row@)));
                assert(table@.rows =~= Seq::new(
                    (i + 1) as nat,
                    |j: int| cue_name_row(tracks[j], j),
                ));
            }
            i = i + 1;
        }
        proof {
            assert(table@ == target);
        }
        table
    }

    fn build_cue_name_table(&self) -> (r: Vec<u8>)
        requires
            cue_name_table_view(self.tracks()).fits(),
        ensures
            r@ == cue_name_table_view(self.tracks()).image(),
            ascii_faithful(cue_name_table_view(self.tracks()).final_strings()),
    {
        let table = self.make_cue_name_table();
        table.build()
    }

    /// The waveform table of the tracks, ready to build.
    fn make_waveform_table(&self) -> (table: UtfTableBuilder)
        ensures
            table@ == waveform_table_view(self.tracks(), self.streaming()),
    {
        let mut table = UtfTableBuilder::new("WaveformTable");
        table.add_column(ColumnDef::per_row("Id", COLUMN_TYPE_2BYTE));
        table.add_column(ColumnDef::per_row("EncodeType", COLUMN_TYPE_1BYTE));
        table.add_column(ColumnDef::per_row("Streaming", COLUMN_TYPE_1BYTE));
        table.add_column(ColumnDef::per_row("MemoryAwbId", COLUMN_TYPE_2BYTE));
        table.add_column(ColumnDef::per_row("StreamAwbId", COLUMN_TYPE_2BYTE));
        let ghost tracks = self.tracks();
        let ghost streaming = self.streaming();
        let ghost target = waveform_table_view(tracks, streaming);
        proof {
            assert(table@.columns =~= target.columns);
            assert(table@.rows =~= Seq::new(0, |j: int| waveform_row(tracks[j], j, streaming)));
        }
        let mut i: usize = 0;
        while i < self.tracks.len()
            invariant
                tracks == self.tracks(),
                streaming == self.streaming(),
                i <= tracks.len(),
                table@.name == target.name,
                table@.columns == target.columns,
                table@.rows == Seq::new(i as nat, |j: int| waveform_row(tracks[j], j, streaming)),
            decreases tracks.len() - i,
        {
            let track = &self.tracks[i];
            let streamed: u8 = if self.streaming_awb { 1 } else { 0 };
            let memory_id: u16 = if self.streaming_awb { 0xFFFF } else { i as u16 };
            let stream_id: u16 = if self.streaming_awb { i as u16 } else { 0xFFFF };
            let mut row: Vec<(String, Value)> = Vec::new();
            row.push(entry("Id", Value::U16(i as u16)));
            row.push(entry("EncodeType", Value::U8(track.encode_type as u8)));
            row.push(entry("Streaming", Value::U8(streamed)));
            row.push(entry("MemoryAwbId", Value::U16(memory_id)));
            row.push(entry("StreamAwbId", Value::U16(stream_id)));
            let ghost before = table@.rows;
            table.add_row(row);
            proof {
                assert(crate::acb::table::row_view(row@) =~= waveform_row(
                    tracks[i as int],
                    i as int,
                    streaming,
                ));
                assert(table@.rows =~= before.push(crate::acb::table::row_view(row@)));
                assert(table@.rows =~= Seq::new(
                    (i + 1) as nat,
                    |j: int| waveform_row(tracks[j], j, streaming),
                ));
            }
            i = i + 1;
        }
        proof {
            assert(table@ == target);
        }
        table
    }

    fn build_waveform_table(&self) -> (r: Vec<u8>)
        requires
            waveform_table_view(self.tracks(), self.streaming()).fits(),
        ensures
            r@ == waveform_table_view(self.tracks(), self.streaming()).image(),
    {
        let table = self.make_waveform_table();
        table.build()
    }

    /// The synth table of the tracks, ready to build.
    fn make_synth_table(&self) -> (table: UtfTableBuilder)
        ensures
            table@ == synth_table_view(self.tracks().len() as int),
    {
        let mut table = UtfTableBuilder::new("SynthTable");
        table.add_column(ColumnDef::per_row("Type", COLUMN_TYPE_1BYTE));
        table.add_column(ColumnDef::per_row("VoiceLimitGroupName", COLUMN_TYPE_STRING));
        table.add_column(ColumnDef::per_row("ReferenceItems", COLUMN_TYPE_DATA));
        let n = self.tracks.len();
        let ghost target = synth_table_view(n as int);
        proof {
            assert(table@.columns =~= target.columns);
            assert(table@.rows =~= Seq::new(0, |j: int| synth_row(j)));
        }
        let mut i: usize = 0;
        while i < n
            invariant
                n == self.tracks().len(),
                i <= n,
                target == synth_table_view(n as int),
                table@.name == target.name,
                table@.columns == target.columns,
                table@.rows == Seq::new(i as nat, |j: int| synth_row(j)),
            decreases n - i,
        {
            let mut items: Vec<u8> = Vec::new();
            write_u16_be(&mut items, 1);
            write_u16_be(&mut items, i as u16);
            let mut row: Vec<(String, Value)> = Vec::new();
            row.push(entry("Type", Value::U8(0)));
            row.push(entry("VoiceLimitGroupName", Value::String(String::new())));
            row.push(entry("ReferenceItems", Value::Data(items)));
            let ghost before = table@.rows;
            table.add_row(row);
            proof {
                assert(items@ =~= be16_bytes(1) + be16_bytes((i as u16) as int));
                assert(crate::acb::table::row_view(row@) =~= synth_row(i as int));
                assert(table@.rows =~= before.push(crate::acb::table::row_view(row@)));
                assert(table@.rows =~= Seq::new((i + 1) as nat, |j: int| synth_row(j)));
            }
            i = i + 1;
        }
        proof {
            assert(table@ == target);
        }
        table
    }

    fn build_synth_table(&self) -> (r: Vec<u8>)
        requires
            synth_table_view(self.tracks().len() as int).fits(),
        ensures
            r@ == synth_table_view(self.tracks().len() as int).image(),
    {
        let table = self.make_synth_table();
        table.build()
    }

    /// An archive builder holding each track's data under its cue id.
    fn make_awb_builder(&self) -> (awb_builder: AfsArchiveBuilder)
        ensures
            awb_builder.alignment() == 32,
            awb_builder.files() == awb_files(self.tracks()),
    {
        let ghost tracks = self.tracks();
        let mut awb_builder = AfsArchiveBuilder::new();
        let mut i: usize = 0;
        while i < self.tracks.len()
            invariant
                tracks == self.tracks(),
                i <= tracks.len(),
                awb_builder.alignment() == 32,
                awb_builder.files() == awb_files(tracks.take(i as int)),
            decreases tracks.len() - i,
        {
            let track = &self.tracks[i];
            let data = track.data.clone();
            proof {
                assert(data@ =~= track.data@);
            }
            awb_builder.add_file(track.cue_id, data);
            proof {
                assert(tracks.take(i + 1) =~= tracks.take(i as int).push(tracks[i as int]));
                assert(awb_builder.files() =~= awb_files(tracks.take(i + 1)));
            }
            i = i + 1;
        }
        proof {
            assert(tracks.take(tracks.len() as int) =~= tracks);
        }
        proof {
            assert(tracks.take(tracks.len() as int) =~= tracks);
        }
        awb_builder
    }

    /// The header table over the built tables and archive, and the archive
    /// handed back when it streams.
    #[verifier::spinoff_prover]
    #[verifier::rlimit(100)]
    fn make_header(
        &self,
        cue_table: Vec<u8>,
        cue_name_table: Vec<u8>,
        waveform_table: Vec<u8>,
        synth_table: Vec<u8>,
        awb: Vec<u8>,
    ) -> (r: (UtfTableBuilder, Option<Vec<u8>>))
        requires
            cue_table@ == cue_table_view(self.tracks()).image(),
            cue_name_table@ == cue_name_table_view(self.tracks()).image(),
            waveform_table@ == waveform_table_view(self.tracks(), self.streaming()).image(),
            synth_table@ == synth_table_view(self.tracks().len() as int).image(),
            awb@ == afs_image(awb_files(self.tracks()), 32),
        ensures
            r.0@ == header_table_view(self.tracks(), self.version(), self.streaming()),
            if self.streaming() {
                r.1 matches Some(a) && a@ == afs_image(awb_files(self.tracks()), 32)
            } else {
                r.1 is None
            },
    {
        let ghost tracks = self.tracks();
        let mut header = UtfTableBuilder::new("Header");
        header.add_column(ColumnDef::constant("FileIdentifier", Value::U32(0)));
        header.add_column(ColumnDef::constant("Size", Value::U32(0)));
        header.add_column(ColumnDef::constant("Version", Value::U32(self.acb_version)));
        header.add_column(ColumnDef::constant("Type", Value::U8(0)));
        header.add_column(ColumnDef::constant("Target", Value::U8(0)));
        header.add_column(ColumnDef::constant("AcbVolume", Value::F32(0x3F80_0000)));
        header.add_column(
            ColumnDef::constant("NumCueLimit", Value::U16(self.tracks.len() as u16)),
        );
        header.add_column(ColumnDef::constant("CueTable", Value::Data(cue_table)));
        header.add_column(ColumnDef::constant("CueNameTable", Value::Data(cue_name_table)));
        header.add_column(ColumnDef::constant("WaveformTable", Value::Data(waveform_table)));
        header.add_column(ColumnDef::constant("SynthTable", Value::Data(synth_table)));
        let streamed: Option<Vec<u8>>;
        if self.streaming_awb {
            let mut hash: Vec<u8> = Vec::new();
            push_zeros(&mut hash, 16);
            header.add_column(ColumnDef::constant("StreamAwbHash", Value::Data(hash)));
            streamed = Some(awb);
        } else {
            header.add_column(ColumnDef::constant("AwbFile", Value::Data(awb)));
            streamed = None;
        }
        header.add_row(Vec::new());
        proof {
            let target = header_table_view(tracks, self.version(), self.streaming());
            assert(header@.columns =~= target.columns);
            assert(header@.rows =~= target.rows) by {
                assert(crate::acb::table::row_view(Seq::<(String, Value)>::empty())
                    =~= Seq::<(Seq<char>, ValueView)>::empty());
            }
            assert(header@ == target);
        }
        (header, streamed)
    }

    /// Build the ACB when every size it computes fits in 32 bits: what
    /// `build` gives; none where a size does not fit.
    pub fn build_checked(&self) -> (r: Option<Result<(Vec<u8>, Option<Vec<u8>>), BuilderError>>)
        ensures
            self.tracks().len() == 0 ==> r == Some(
                Err::<(Vec<u8>, Option<Vec<u8>>), BuilderError>(BuilderError::NoTracks),
            ),
            self.tracks().len() > 0 && !self.fits() ==> r is None,
            self.tracks().len() > 0 && self.fits() ==> (r matches Some(Ok((acb, awb))) && acb@
                == header_table_view(self.tracks(), self.version(), self.streaming()).image() && (
            if self.streaming() {
                awb matches Some(a) && a@ == afs_image(awb_files(self.tracks()), 32)
            } else {
                awb is None
            })),
    {
        if self.tracks.len() == 0 {
            return Some(Err(BuilderError::NoTracks));
        }
        let awb_builder = self.make_awb_builder();
        if !awb_builder.sizes_fit() {
            return None;
        }
        let awb = match awb_builder.build() {
            Ok(v) => v,
            Err(e) => {
                return Some(Err(e));
            },
        };
        let cue = self.make_cue_table();
        let cue_name = self.make_cue_name_table();
        let waveform = self.make_waveform_table();
        let synth = self.make_synth_table();
        if !cue.sizes_fit() || !cue_name.sizes_fit() || !waveform.sizes_fit() || !synth.sizes_fit() {
            return None;
        }
        let (header, streamed) = self.make_header(cue.build(), cue_name.build(), waveform.build(),
            synth.build(), awb);
        if !header.sizes_fit() {
            return None;
        }
        Some(Ok((header.build(), streamed)))
    }

    /// Build the ACB: its single-row "Header" table, holding the cue, cue
    /// name, waveform and synth tables and the AFS2 archive of the track
    /// data. A streamed archive is handed back beside the ACB instead of
    /// being embedded.
    #[verifier::spinoff_prover]
    pub fn build(&self) -> (r: Result<(Vec<u8>, Option<Vec<u8>>), BuilderError>)
        requires
            self.tracks().len() > 0 ==> self.fits(),
        ensures
            self.tracks().len() == 0 ==> r == Err::<(Vec<u8>, Option<Vec<u8>>), BuilderError>(
                BuilderError::NoTracks,
            ),
            self.tracks().len() > 0 ==> (r matches Ok((acb, awb)) && acb@ == header_table_view(
                self.tracks(),
                self.version(),
                self.streaming(),
            ).image() && (if self.streaming() {
                awb matches Some(a) && a@ == afs_image(awb_files(self.tracks()), 32)
            } else {
                awb is None
            })),
            self.tracks().len() > 0 ==> ascii_faithful(
                header_table_view(self.tracks(), self.version(), self.streaming()).final_strings(),
            ),
            self.tracks().len() > 0 ==> ascii_faithful(cue_name_table_view(self.tracks()).final_strings()),
    {
        if self.tracks.len() == 0 {
            return Err(BuilderError::NoTracks);
        }
        let ghost tracks = self.tracks();
        let awb_builder = self.make_awb_builder();
        let awb = match awb_builder.build() {
            Ok(v) => v,
            Err(e) => {
                return Err(e);
            },
        };
        let cue_table = self.build_cue_table();
        let cue_name_table = self.build_cue_name_table();
        let waveform_table = self.build_waveform_table();
        let synth_table = self.build_synth_table();
        let (header, streamed) = self.make_header(cue_table, cue_name_table, waveform_table,
            synth_table, awb);
        let acb = header.build();
        Ok((acb, streamed))
    }
}

impl Default for AfsArchiveBuilder {
    fn default() -> (r: Self)
        ensures
            r.alignment() == 32,
            r.files() == Seq::<(u32, Seq<u8>)>::empty(),
    {
        Self::new()
    }
}

impl Default for AcbBuilder {
    fn default() -> (r: Self)
        ensures
            r.tracks() == Seq::<TrackInput>::empty(),
            r.version() == 0x0130_0500,
            !r.streaming(),
    {
        Self::new()
    }
}

} // verus!
