use cridecoder::acb::afs::AFS2_MAGIC;
use cridecoder::acb::builder::{write_u16_be, write_u32_be};
use cridecoder::acb::consts::{
    wave_type_extension, COLUMN_FLAG_DEFAULT, COLUMN_FLAG_MASK, COLUMN_FLAG_NAME, COLUMN_FLAG_ROW,
    COLUMN_TYPE_1BYTE, COLUMN_TYPE_2BYTE, COLUMN_TYPE_4BYTE, COLUMN_TYPE_DATA, COLUMN_TYPE_MASK,
    COLUMN_TYPE_STRING, WAVEFORM_ENCODE_TYPE_ADX, WAVEFORM_ENCODE_TYPE_ADX_ALT,
    WAVEFORM_ENCODE_TYPE_AHX, WAVEFORM_ENCODE_TYPE_ATRAC3, WAVEFORM_ENCODE_TYPE_ATRAC9,
    WAVEFORM_ENCODE_TYPE_BCWAV, WAVEFORM_ENCODE_TYPE_DS_ADPCM, WAVEFORM_ENCODE_TYPE_HCA,
    WAVEFORM_ENCODE_TYPE_HCA_MX, WAVEFORM_ENCODE_TYPE_HEVAG, WAVEFORM_ENCODE_TYPE_M4A,
    WAVEFORM_ENCODE_TYPE_NINTENDO_DSP, WAVEFORM_ENCODE_TYPE_PS4_ATRAC9,
    WAVEFORM_ENCODE_TYPE_SWITCH_OPUS, WAVEFORM_ENCODE_TYPE_VAG, WAVEFORM_ENCODE_TYPE_WII_ADPCM,
    WAVEFORM_ENCODE_TYPE_XMA,
};
use cridecoder::acb::strings::{DataTable, StringTable};
use cridecoder::acb::table::ColumnDef;
use cridecoder::acb::utf::Value;
use cridecoder::acb::{AfsArchive, AfsError, AfsFileEntry};
use cridecoder::{AcbBuilder, AfsArchiveBuilder, BuilderError, TrackInput, UtfTableBuilder};

#[test]
fn test_afs_file_entry() {
    let entry = AfsFileEntry {
        cue_id: 0,
        offset: 0x100,
        size: 0x200,
    };
    assert_eq!(entry.cue_id, 0);
    assert_eq!(entry.offset, 0x100);
    assert_eq!(entry.size, 0x200);
}

#[test]
fn test_string_table() {
    let mut st = StringTable::new();
    let off1 = st.add("hello");
    let off2 = st.add("world");
    let off3 = st.add("hello"); // Duplicate

    assert_eq!(off1, 0);
    assert_eq!(off3, off1); // Should reuse
    assert!(off2 > off1);
}

#[test]
fn test_afs_builder() {
    let mut builder = AfsArchiveBuilder::new();
    builder.add_file(0, vec![1, 2, 3, 4]);
    builder.add_file(1, vec![5, 6, 7, 8, 9]);

    let data = builder.build().unwrap();
    assert_eq!(&data[0..4], b"AFS2");
}

#[test]
fn test_utf_table_builder() {
    let mut builder = UtfTableBuilder::new("TestTable");
    builder.add_column(ColumnDef::constant("Version", Value::U32(1)));
    builder.add_column(ColumnDef::per_row("Name", COLUMN_TYPE_STRING));

    let row = vec![("Name".to_string(), Value::String("test".to_string()))];
    builder.add_row(row);

    let data = builder.build();
    assert_eq!(&data[0..4], b"@UTF");
}

#[test]
fn test_wave_type_extension_known() {
    assert_eq!(wave_type_extension(WAVEFORM_ENCODE_TYPE_ADX), ".adx");
    assert_eq!(wave_type_extension(WAVEFORM_ENCODE_TYPE_AHX), ".ahx");
    assert_eq!(wave_type_extension(WAVEFORM_ENCODE_TYPE_HCA), ".hca");
    assert_eq!(wave_type_extension(WAVEFORM_ENCODE_TYPE_ADX_ALT), ".adx");
    assert_eq!(
        wave_type_extension(WAVEFORM_ENCODE_TYPE_WII_ADPCM),
        ".wiiadpcm"
    );
    assert_eq!(
        wave_type_extension(WAVEFORM_ENCODE_TYPE_DS_ADPCM),
        ".dsadpcm"
    );
    assert_eq!(wave_type_extension(WAVEFORM_ENCODE_TYPE_HCA_MX), ".hca");
    assert_eq!(wave_type_extension(WAVEFORM_ENCODE_TYPE_VAG), ".vag");
    assert_eq!(wave_type_extension(WAVEFORM_ENCODE_TYPE_ATRAC3), ".at3");
    assert_eq!(wave_type_extension(WAVEFORM_ENCODE_TYPE_BCWAV), ".bcwav");
    assert_eq!(wave_type_extension(WAVEFORM_ENCODE_TYPE_HEVAG), ".vag");
    assert_eq!(wave_type_extension(WAVEFORM_ENCODE_TYPE_ATRAC9), ".at9");
    assert_eq!(wave_type_extension(WAVEFORM_ENCODE_TYPE_XMA), ".xma");
    assert_eq!(
        wave_type_extension(WAVEFORM_ENCODE_TYPE_NINTENDO_DSP),
        ".dsp"
    );
    assert_eq!(wave_type_extension(WAVEFORM_ENCODE_TYPE_PS4_ATRAC9), ".at9");
    assert_eq!(wave_type_extension(WAVEFORM_ENCODE_TYPE_M4A), ".m4a");
    assert_eq!(
        wave_type_extension(WAVEFORM_ENCODE_TYPE_SWITCH_OPUS),
        ".lopus"
    );
}

#[test]
fn test_wave_type_extension_unknown() {
    assert_eq!(wave_type_extension(-1), "");
    assert_eq!(wave_type_extension(99), "");
    assert_eq!(wave_type_extension(14), "");
}

#[test]
fn test_column_constants() {
    assert_eq!(COLUMN_FLAG_MASK & COLUMN_TYPE_MASK, 0);
    assert_eq!(COLUMN_FLAG_MASK | COLUMN_TYPE_MASK, 0xFF);
}

/// A minimal HCA header, as the container tests use.
fn create_minimal_hca_header() -> Vec<u8> {
    let mut data = Vec::new();
    data.extend_from_slice(b"HCA\x00");
    data.extend_from_slice(&[0x02, 0x00]);
    data.extend_from_slice(&[0x00, 0x60]);
    data.extend_from_slice(b"fmt\x00");
    data.extend_from_slice(&[2]);
    data.extend_from_slice(&[0x00, 0xAC, 0x44]);
    data.extend_from_slice(&[0x00, 0x00, 0x00, 0x10]);
    data.extend_from_slice(&[0x00, 0x00]);
    data.extend_from_slice(&[0x00, 0x00]);
    data.extend_from_slice(b"comp");
    data.extend_from_slice(&[0x01, 0x55]);
    data.extend_from_slice(&[0x00]);
    data.extend_from_slice(&[0x0F]);
    data.extend_from_slice(&[0x01]);
    data.extend_from_slice(&[0x01]);
    data.extend_from_slice(&[0x80]);
    data.extend_from_slice(&[0x60]);
    data.extend_from_slice(&[0x00]);
    data.extend_from_slice(&[0x00]);
    data.extend_from_slice(&[0x00, 0x00]);
    while data.len() < 96 {
        data.push(0);
    }
    data
}

#[test]
fn test_acb_builder_basic() {
    let dummy_hca = create_minimal_hca_header();

    let input = TrackInput::new("test_track", 0, dummy_hca);

    let mut builder = AcbBuilder::new();
    builder.add_track(input);

    let result = builder.build();
    assert!(result.is_ok(), "ACB build should succeed: {:?}", result.err());
    let (output, awb) = result.unwrap();
    assert!(output.len() > 64, "ACB should have content");
    assert!(awb.is_none());

    assert_eq!(&output[0..4], b"@UTF", "Should have UTF magic");
}

#[test]
fn test_afs_archive_builder() {
    let file1 = vec![0x48, 0x43, 0x41, 0x00];
    let file2 = vec![0x48, 0x43, 0x41, 0x00, 0x01, 0x02];

    let mut builder = AfsArchiveBuilder::new();
    builder.add_file(0, file1);
    builder.add_file(1, file2);

    let data = builder.build().expect("AFS build should succeed");
    assert_eq!(&data[0..4], b"AFS2", "Should have AFS2 magic");
}

// ---------------------------------------------------------------------------
// AFS2 archives
// ---------------------------------------------------------------------------

#[test]
fn afs_builder_exact_layout() {
    let mut builder = AfsArchiveBuilder::new();
    builder.add_file(7, vec![1, 2, 3]);
    builder.add_file(9, vec![4, 5]);
    let data = builder.build().unwrap();
    // Header: magic, version, count 2, alignment 32, ids, 3 offsets = 0x20 bytes.
    let mut expected = vec![0x41, 0x46, 0x53, 0x32, 0x01, 0x04, 0x02, 0x00];
    expected.extend_from_slice(&2u32.to_le_bytes());
    expected.extend_from_slice(&32u32.to_le_bytes());
    expected.extend_from_slice(&7u16.to_le_bytes());
    expected.extend_from_slice(&9u16.to_le_bytes());
    expected.extend_from_slice(&0x20u32.to_le_bytes());
    expected.extend_from_slice(&0x40u32.to_le_bytes());
    expected.extend_from_slice(&0x60u32.to_le_bytes());
    assert_eq!(expected.len(), 0x20);
    expected.extend_from_slice(&[1, 2, 3]);
    expected.extend(std::iter::repeat(0u8).take(0x40 - 0x23));
    expected.extend_from_slice(&[4, 5]);
    assert_eq!(data, expected);
}

#[test]
fn afs_builder_without_files_is_refused() {
    let builder = AfsArchiveBuilder::new();
    assert_eq!(builder.build().unwrap_err(), BuilderError::NoTracks);
}

#[test]
fn afs_build_then_parse() {
    let mut builder = AfsArchiveBuilder::new();
    builder.add_file(3, vec![0xAA; 40]);
    builder.add_file(0x1_0005, vec![0xBB; 64]);
    let data = builder.build().unwrap();
    let mut archive = AfsArchive::new(data).unwrap();
    assert_eq!(archive.alignment, 32);
    assert_eq!(archive.files.len(), 2);
    assert_eq!(archive.files[0].cue_id, 3);
    // The cue id is stored in 16 bits.
    assert_eq!(archive.files[1].cue_id, 5);
    let first = archive.file_data_for_cue_id(3).unwrap();
    assert_eq!(&first[..40], &[0xAA; 40][..]);
    assert_eq!(first.len(), 64);
    let second = archive.file_data_for_cue_id(5).unwrap();
    assert_eq!(second, vec![0xBB; 64]);
}

#[test]
fn afs_parse_errors() {
    assert!(matches!(
        AfsArchive::new(b"AFS3\x01\x04\x02\x00".to_vec()),
        Err(AfsError::BadMagic)
    ));
    assert!(matches!(AfsArchive::new(b"AF".to_vec()), Err(AfsError::Io(_))));
    let mut builder = AfsArchiveBuilder::new();
    builder.add_file(4, vec![1; 32]);
    let mut archive = AfsArchive::new(builder.build().unwrap()).unwrap();
    assert!(matches!(
        archive.file_data_for_cue_id(8),
        Err(AfsError::CueNotFound(8))
    ));
    assert_eq!(AFS2_MAGIC, 0x4146_5332);
}

#[test]
fn afs_falls_back_to_first_file_for_cue_zero() {
    let mut builder = AfsArchiveBuilder::new();
    builder.add_file(0, vec![9; 32]);
    builder.add_file(1, vec![8; 32]);
    let mut archive = AfsArchive::new(builder.build().unwrap()).unwrap();
    assert_eq!(archive.file_data_for_cue_id(42).unwrap(), vec![9; 32]);
}

// ---------------------------------------------------------------------------
// String and data pools
// ---------------------------------------------------------------------------

#[test]
fn string_pool_offsets_and_bytes() {
    let mut st = StringTable::new();
    assert_eq!(st.add("hello"), 0);
    assert_eq!(st.add("world"), 6);
    assert_eq!(st.add("hello"), 0);
    assert_eq!(st.add(""), 12);
    assert_eq!(st.len(), 13);
    assert_eq!(st.data(), b"hello\0world\0\0");
}

#[test]
fn string_pool_encodes_shift_jis() {
    let mut st = StringTable::new();
    st.add("\u{3042}");
    // Hiragana A is 0x82 0xA0 in Shift-JIS.
    assert_eq!(st.data(), &[0x82, 0xA0, 0x00][..]);
}

#[test]
fn data_pool_appends() {
    let mut dt = DataTable::new();
    assert_eq!(dt.add(&[1, 2, 3]), 0);
    assert_eq!(dt.add(&[4]), 3);
    assert_eq!(dt.add(&[]), 4);
    assert_eq!(dt.len(), 4);
    assert_eq!(dt.data(), &[1, 2, 3, 4][..]);
}

// ---------------------------------------------------------------------------
// @UTF tables
// ---------------------------------------------------------------------------

#[test]
fn column_definitions() {
    let c = ColumnDef::constant("Version", Value::U32(1));
    assert_eq!(c.name, "Version");
    assert_eq!(c.typ, COLUMN_TYPE_4BYTE);
    assert_eq!(c.flag, COLUMN_FLAG_NAME | COLUMN_FLAG_DEFAULT);
    assert!(c.constant_value.is_some());
    let d = ColumnDef::constant("Blob", Value::Data(vec![1]));
    assert_eq!(d.typ, COLUMN_TYPE_DATA);
    let r = ColumnDef::per_row("Id", COLUMN_TYPE_2BYTE);
    assert_eq!(r.typ, COLUMN_TYPE_2BYTE);
    assert_eq!(r.flag, COLUMN_FLAG_NAME | COLUMN_FLAG_ROW);
    assert!(r.constant_value.is_none());
}

#[test]
fn utf_table_exact_image() {
    let mut builder = UtfTableBuilder::new("T");
    builder.add_column(ColumnDef::constant("V", Value::U16(0x1234)));
    builder.add_column(ColumnDef::per_row("N", COLUMN_TYPE_STRING));
    builder.add_column(ColumnDef::per_row("B", COLUMN_TYPE_DATA));
    builder.add_column(ColumnDef::per_row("M", COLUMN_TYPE_1BYTE));
    builder.add_row(vec![
        ("N".to_string(), Value::String("x".to_string())),
        ("B".to_string(), Value::Data(vec![7, 8])),
    ]);
    let data = builder.build();

    // Pools: "T\0V\0N\0B\0M\0x\0" and the blob 07 08.
    let strings = b"T\0V\0N\0B\0M\0x\0";
    let schema_size: u32 = 5 + 2 + 5 + 5 + 5;
    let row_width: u32 = 4 + 8 + 1;
    let rows_offset = 0x18 + schema_size;
    let strings_offset = rows_offset + row_width;
    let data_offset = strings_offset + strings.len() as u32;
    let table_size = data_offset + 2;

    let mut expected: Vec<u8> = b"@UTF".to_vec();
    write_u32_be(&mut expected, table_size);
    write_u16_be(&mut expected, 1);
    write_u16_be(&mut expected, rows_offset as u16);
    write_u32_be(&mut expected, strings_offset);
    write_u32_be(&mut expected, data_offset);
    write_u32_be(&mut expected, 0);
    write_u16_be(&mut expected, 4);
    write_u16_be(&mut expected, row_width as u16);
    write_u32_be(&mut expected, 1);
    assert_eq!(expected.len(), 32);
    // Schema.
    expected.push(COLUMN_FLAG_NAME | COLUMN_FLAG_DEFAULT | 0x02);
    write_u32_be(&mut expected, 2);
    write_u16_be(&mut expected, 0x1234);
    expected.push(COLUMN_FLAG_NAME | COLUMN_FLAG_ROW | COLUMN_TYPE_STRING);
    write_u32_be(&mut expected, 4);
    expected.push(COLUMN_FLAG_NAME | COLUMN_FLAG_ROW | COLUMN_TYPE_DATA);
    write_u32_be(&mut expected, 6);
    expected.push(COLUMN_FLAG_NAME | COLUMN_FLAG_ROW | COLUMN_TYPE_1BYTE);
    write_u32_be(&mut expected, 8);
    // Row: string offset, blob offset and size, missing byte as zero.
    write_u32_be(&mut expected, 10);
    write_u32_be(&mut expected, 0);
    write_u32_be(&mut expected, 2);
    expected.push(0);
    expected.extend_from_slice(strings);
    expected.extend_from_slice(&[7, 8]);
    assert_eq!(data, expected);
}

#[test]
fn utf_table_later_row_entry_overrides() {
    let mut a = UtfTableBuilder::new("T");
    a.add_column(ColumnDef::per_row("X", COLUMN_TYPE_1BYTE));
    a.add_row(vec![
        ("X".to_string(), Value::U8(1)),
        ("X".to_string(), Value::U8(2)),
    ]);
    let mut b = UtfTableBuilder::new("T");
    b.add_column(ColumnDef::per_row("X", COLUMN_TYPE_1BYTE));
    b.add_row(vec![("X".to_string(), Value::U8(2))]);
    assert_eq!(a.build(), b.build());
}

#[test]
fn utf_table_scalar_cells() {
    let mut t = UtfTableBuilder::new("S");
    t.add_column(ColumnDef::constant("a", Value::I8(-1)));
    t.add_column(ColumnDef::constant("b", Value::I16(-2)));
    t.add_column(ColumnDef::constant("c", Value::I32(-3)));
    t.add_column(ColumnDef::constant("d", Value::U64(0x0102_0304_0506_0708)));
    t.add_column(ColumnDef::constant("e", Value::F32(0x3F80_0000)));
    let data = t.build();
    let schema = &data[32..];
    assert_eq!(schema[0], 0x20 | 0x10 | 0x01);
    assert_eq!(schema[5], 0xFF);
    assert_eq!(&schema[11..13], &[0xFF, 0xFE]);
    assert_eq!(&schema[18..22], &[0xFF, 0xFF, 0xFF, 0xFD]);
    assert_eq!(&schema[27..35], &[1, 2, 3, 4, 5, 6, 7, 8]);
    assert_eq!(&schema[40..44], &[0x3F, 0x80, 0, 0]);
}

// ---------------------------------------------------------------------------
// Tracks and ACB files
// ---------------------------------------------------------------------------

#[test]
fn track_input_detects_encode_type() {
    assert_eq!(
        TrackInput::new("a", 0, vec![0x80, 0x00, 1, 2]).encode_type,
        WAVEFORM_ENCODE_TYPE_ADX
    );
    assert_eq!(
        TrackInput::new("a", 0, vec![0, 0, 0, 0x80]).encode_type,
        WAVEFORM_ENCODE_TYPE_ADX
    );
    assert_eq!(
        TrackInput::new("a", 0, b"HCA\0".to_vec()).encode_type,
        WAVEFORM_ENCODE_TYPE_HCA
    );
    assert_eq!(
        TrackInput::new("a", 0, vec![1]).encode_type,
        WAVEFORM_ENCODE_TYPE_HCA
    );
    let t = TrackInput::new("name", 5, vec![1, 2]);
    assert_eq!(t.name, "name");
    assert_eq!(t.cue_id, 5);
    assert_eq!(t.data, vec![1, 2]);
}

#[test]
fn acb_builder_without_tracks_is_refused() {
    let builder = AcbBuilder::new();
    assert_eq!(builder.build().unwrap_err(), BuilderError::NoTracks);
    assert_eq!(BuilderError::NoTracks.message(), "No audio tracks provided");
    assert_eq!(BuilderError::UnsupportedFormat.message(), "Unsupported audio format");
    assert_eq!(
        BuilderError::NameTooLong("x".to_string()).message(),
        "Track name too long: x"
    );
    assert_eq!(AfsError::CueNotFound(-12).message(), "Cue ID -12 not found in archive");
    assert_eq!(AfsError::BadMagic.message(), "Invalid AFS2 magic");
}

#[test]
fn acb_builder_streams_archive_apart() {
    let mut builder = AcbBuilder::new().streaming_awb(true);
    builder.add_track(TrackInput::new("one", 4, vec![1, 2, 3]));
    let (acb, awb) = builder.build().unwrap();
    let awb = awb.expect("a streamed archive is handed back");
    let mut expected_awb = AfsArchiveBuilder::new();
    expected_awb.add_file(4, vec![1, 2, 3]);
    assert_eq!(awb, expected_awb.build().unwrap());
    assert_eq!(&acb[0..4], b"@UTF");
    // The streamed form holds the zero hash instead of the archive.
    let mut embedded = AcbBuilder::new();
    embedded.add_track(TrackInput::new("one", 4, vec![1, 2, 3]));
    let (acb_embedded, none) = embedded.build().unwrap();
    assert!(none.is_none());
    assert!(acb_embedded.windows(awb.len()).any(|w| w == &awb[..]));
    assert!(!acb.windows(awb.len()).any(|w| w == &awb[..]));
}

#[test]
fn acb_builder_is_deterministic() {
    let make = || {
        let mut b = AcbBuilder::new();
        b.add_track(TrackInput::new("a", 0, vec![0x80, 0]));
        b.add_track(TrackInput::new("b", 1, vec![1, 2, 3]));
        b.build().unwrap()
    };
    assert_eq!(make(), make());
}

#[test]
fn builder_defaults() {
    let afs = AfsArchiveBuilder::default();
    assert_eq!(afs.build(), Err(BuilderError::NoTracks));
    let acb = AcbBuilder::default();
    assert_eq!(acb.build(), Err(BuilderError::NoTracks));
}

#[test]
fn utf_header_offsets_count_from_byte_8() {
    let mut builder = UtfTableBuilder::new("TestTable");
    builder.add_column(ColumnDef::constant("Version", Value::U32(1)));
    builder.add_column(ColumnDef::per_row("Name", COLUMN_TYPE_STRING));
    builder.add_row(vec![("Name".to_string(), Value::String("test".to_string()))]);
    let out = builder.build();
    let rows = u16::from_be_bytes([out[10], out[11]]) as usize;
    let strings = u32::from_be_bytes([out[12], out[13], out[14], out[15]]) as usize;
    let data = u32::from_be_bytes([out[16], out[17], out[18], out[19]]) as usize;
    assert_eq!((rows, strings, data), (38, 42, 70));
    // The schema ends where the rows start; the pool starts with the name.
    assert_eq!(&out[strings + 8..strings + 8 + 10], b"TestTable\0");
    assert_eq!(out.len(), data + 8);
    assert_eq!(builder.build_checked(), Some(out));
    assert!(builder.sizes_fit());
}

#[test]
fn checked_builds() {
    let mut afs = AfsArchiveBuilder::new();
    assert!(afs.sizes_fit());
    afs.add_file(1, vec![1, 2, 3]);
    assert!(afs.sizes_fit());
    let mut zero = AfsArchiveBuilder::new().with_alignment(0);
    zero.add_file(1, vec![1]);
    assert!(!zero.sizes_fit());
    let mut huge = AfsArchiveBuilder::new().with_alignment(0x8000_0000);
    huge.add_file(1, vec![1]);
    assert!(!huge.sizes_fit());

    assert_eq!(AcbBuilder::new().build_checked(), Some(Err(BuilderError::NoTracks)));
    let mut acb = AcbBuilder::new();
    acb.add_track(TrackInput::new("t", 0, vec![0x48, 0x43, 0x41, 0, 1, 2]));
    assert_eq!(acb.build_checked(), Some(acb.build()));
}

#[test]
fn afs_parses_back_with_short_last_file() {
    let mut b = AfsArchiveBuilder::new();
    b.add_file(4, vec![1, 2, 3]);
    b.add_file(9, vec![5; 40]);
    let bytes = b.build().unwrap();
    let mut a = AfsArchive::new(bytes.clone()).unwrap();
    assert_eq!(a.files.len(), 2);
    assert_eq!(a.files[0].cue_id, 4);
    assert_eq!(a.files[0].size, 32);
    let o1 = a.files[1].offset as usize;
    assert_eq!(&bytes[o1..o1 + 40], &[5u8; 40][..]);
    assert_eq!(a.files[1].size, 64);
    let first = a.file_data_for_cue_id(4).unwrap();
    assert_eq!(&first[..3], &[1, 2, 3]);
    assert!(a.file_data_for_cue_id(9).is_err());
}
