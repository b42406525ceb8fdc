use cridecoder::acb::consts::COLUMN_TYPE_STRING;
use cridecoder::acb::table::ColumnDef;
use cridecoder::acb::utf::Value;
use cridecoder::UtfTableBuilder;
use cridecoder::reader::{IoError, Reader};
use cridecoder::usm::extractor::{
    extract_usm, extract_usm_chunks, parse_usm_header, read_usm_header, UsmError,
};

/// A @UTF table as the USM reader reads it, with one per-row string field
/// and one row, or with nothing at all.
fn utf_table(field: Option<(&str, &[u8])>) -> Vec<u8> {
    let mut body = Vec::new();
    let mut strings = Vec::new();
    let (nf, nrows, row_offset, sto) = match field {
        Some((name, value)) => {
            strings.extend_from_slice(name.as_bytes());
            strings.push(0);
            let value_off = strings.len() as u32;
            strings.extend_from_slice(value);
            strings.push(0);
            // Schema: a per-row string field named at offset 0.
            body.push(0x5A);
            body.extend_from_slice(&0u32.to_be_bytes());
            // Row: the offset of the value.
            body.extend_from_slice(&value_off.to_be_bytes());
            (1u16, 1u32, 24 + 5u16, 24 + 9u32)
        }
        None => (0, 0, 24, 24),
    };
    body.extend_from_slice(&strings);
    while body.len() % 4 != 0 {
        body.push(0);
    }
    let mut t = b"@UTF".to_vec();
    t.extend_from_slice(&(24 + body.len() as u32).to_be_bytes());
    t.extend_from_slice(&1u16.to_be_bytes());
    t.extend_from_slice(&row_offset.to_be_bytes());
    t.extend_from_slice(&sto.to_be_bytes());
    t.extend_from_slice(&(sto + strings.len() as u32).to_be_bytes());
    t.extend_from_slice(&0u32.to_be_bytes());
    t.extend_from_slice(&nf.to_be_bytes());
    t.extend_from_slice(&0u16.to_be_bytes());
    t.extend_from_slice(&nrows.to_be_bytes());
    t.extend_from_slice(&body);
    t
}

/// A block: signature, size, padding to 0x20, then its contents.
fn block(sig: &[u8], inner: &[u8]) -> Vec<u8> {
    let mut b = sig.to_vec();
    let mut inner = inner.to_vec();
    while inner.len() % 4 != 0 {
        inner.push(0);
    }
    b.extend_from_slice(&(24 + inner.len() as u32).to_be_bytes());
    b.extend_from_slice(&[0u8; 24]);
    b.extend_from_slice(&inner);
    b
}

/// A content chunk: 32-byte head (header size 24, footer 0, data type),
/// then the payload.
fn chunk(sig: &[u8], payload: &[u8], data_type: u8) -> Vec<u8> {
    let mut c = sig.to_vec();
    c.extend_from_slice(&(24 + payload.len() as u32).to_be_bytes());
    c.extend_from_slice(&24u16.to_be_bytes());
    c.extend_from_slice(&0u16.to_be_bytes());
    c.extend_from_slice(&[0, 0, 0, data_type]);
    c.extend_from_slice(&[0u8; 16]);
    c.extend_from_slice(payload);
    c
}

fn usm(filename: Option<&[u8]>, audio: bool, chunks: &[Vec<u8>]) -> Vec<u8> {
    let entry = match filename {
        Some(f) => utf_table(Some(("filename", f))),
        None => utf_table(None),
    };
    let mut d = block(b"CRID", &entry);
    d.extend(block(b"@SFV", &utf_table(None)));
    if audio {
        d.extend(block(b"@SFA", &utf_table(None)));
    }
    d.extend(block(b"@SFV", b"#HEADER END"));
    if audio {
        d.extend(block(b"@SFA", b"#HEADER END"));
    }
    d.extend(block(b"@SFV", &utf_table(None)));
    // The metadata end: the contents start 16 bytes after the marker,
    // rounded up to four bytes.
    let mut end = block(b"@SFV", b"#METADATA END");
    end.resize(64, 0);
    d.extend(end);
    for c in chunks {
        d.extend_from_slice(c);
    }
    d.extend(chunk(b"@SFV", b"#CONTENTS END", 0));
    d
}

#[test]
fn extracts_video() {
    let data = usm(
        Some(b"movie.m2v"),
        false,
        &[chunk(b"@SFV", &[1, 2, 3], 0), chunk(b"@SFV", &[4, 5], 1)],
    );
    let s = extract_usm(data, b"fallback", None, true).unwrap();
    assert_eq!(s.filename, "movie.m2v");
    assert_eq!(s.video, vec![1, 2, 3, 4, 5]);
    assert!(s.audio.is_none());
}

#[test]
fn extracts_audio_when_asked() {
    let chunks = [
        chunk(b"@SFA", &[9, 9], 0),
        chunk(b"@SFV", &[1], 0),
        chunk(b"@ALP", &[7], 0),
        chunk(b"@SFA", &[8], 0),
    ];
    let data = usm(Some(b"a.m2v"), true, &chunks);
    let s = extract_usm(data.clone(), b"", None, true).unwrap();
    assert_eq!(s.video, vec![1]);
    assert_eq!(s.audio, Some(vec![9, 9, 8]));
    let s = extract_usm(data, b"", None, false).unwrap();
    assert!(s.audio.is_none());
}

#[test]
fn falls_back_to_the_given_name() {
    let data = usm(None, false, &[]);
    let s = extract_usm(data, b"clip.usm", None, false).unwrap();
    assert_eq!(s.filename, "clip.usm");
    assert!(s.video.is_empty());
}

#[test]
fn decodes_shift_jis_names() {
    let data = usm(Some(&[0x82, 0xA0, b'.', b'm']), false, &[]);
    let s = extract_usm(data, b"", None, false).unwrap();
    assert_eq!(s.filename, "\u{3042}.m");
    let mut r = Reader::new(usm(Some(b"plain"), true, &[]));
    let (name, has_audio) = read_usm_header(&mut r, b"fallback").unwrap();
    assert_eq!(name, "plain");
    assert!(has_audio);
}

#[test]
fn unmasks_audio_with_a_key() {
    let payload: Vec<u8> = (0..0x180u32).map(|i| (i * 7 % 256) as u8).collect();
    let data = usm(None, true, &[chunk(b"@SFA", &payload, 0)]);
    let s = extract_usm(data, b"", Some(0x0102_0304_0506_0708), true).unwrap();
    let out = s.audio.unwrap();
    assert_eq!(out.len(), payload.len());
    assert_eq!(&out[..0x140], &payload[..0x140]);
    let uruc = b"URUC";
    for i in 0..(payload.len() - 0x140) {
        let m = out[0x140 + i] ^ payload[0x140 + i];
        if i % 2 == 1 {
            assert_eq!(m, uruc[(i / 2) % 4]);
        }
        assert_eq!(m, out[0x140 + i % 32] ^ payload[0x140 + i % 32]);
    }
}

#[test]
fn keeps_masked_types_without_a_key() {
    let payload: Vec<u8> = (0..0x300u32).map(|i| (i % 251) as u8).collect();
    let data = usm(None, false, &[chunk(b"@SFV", &payload, 0)]);
    let plain = extract_usm(data.clone(), b"", None, false).unwrap();
    assert_eq!(plain.video, payload);
    let unmasked = extract_usm(data, b"", Some(42), false).unwrap();
    assert_eq!(unmasked.video.len(), payload.len());
    assert_eq!(&unmasked.video[..0x40], &payload[..0x40]);
    assert_ne!(unmasked.video, payload);
    // Data type 1 is never unmasked.
    let data = usm(None, false, &[chunk(b"@SFV", &payload, 1)]);
    assert_eq!(extract_usm(data, b"", Some(42), false).unwrap().video, payload);
}

#[test]
fn short_video_is_left_as_is() {
    let payload = vec![5u8; 0x100];
    let data = usm(None, false, &[chunk(b"@SFV", &payload, 0)]);
    assert_eq!(extract_usm(data, b"", Some(42), false).unwrap().video, payload);
}

#[test]
fn header_errors() {
    assert!(matches!(
        extract_usm(b"CRIX\0\0\0\0".to_vec(), b"", None, false),
        Err(UsmError::InvalidCridSignature)
    ));
    assert!(matches!(
        extract_usm(b"CR".to_vec(), b"", None, false),
        Err(UsmError::Io(IoError::UnexpectedEof))
    ));
    let mut bad_table = usm(None, false, &[]);
    bad_table[0x20] = b'#';
    assert!(matches!(
        extract_usm(bad_table, b"", None, false),
        Err(UsmError::InvalidUtfSignature)
    ));
    let good = usm(None, false, &[]);
    let header_len = block(b"CRID", &utf_table(None)).len();
    let mut bad_sig = good.clone();
    bad_sig[header_len + 3] = b'X';
    match extract_usm(bad_sig, b"", None, false) {
        Err(UsmError::ExpectedSignature(s)) => assert_eq!(s, "@SFV"),
        other => panic!("unexpected {:?}", other.map(|_| ())),
    }
    let marker_at = header_len + block(b"@SFV", &utf_table(None)).len() + 0x20;
    let mut bad_marker = good.clone();
    bad_marker[marker_at] = b'$';
    match extract_usm(bad_marker, b"", None, false) {
        Err(UsmError::ExpectedMarker(s)) => assert_eq!(s, "#HEADER END"),
        other => panic!("unexpected {:?}", other.map(|_| ())),
    }
}

#[test]
fn stops_at_the_end_of_the_data() {
    // Without the closing chunk the walk ends where no signature is left.
    let payload: Vec<u8> = (1..=16).collect();
    let mut data = usm(None, false, &[chunk(b"@SFV", &payload, 0)]);
    let closing = chunk(b"@SFV", b"#CONTENTS END", 0).len();
    data.truncate(data.len() - closing);
    assert_eq!(extract_usm(data.clone(), b"", None, false).unwrap().video, payload);
    // A last chunk too short to hold the end marker is an error.
    data.truncate(data.len() - 4);
    assert!(matches!(
        extract_usm(data, b"", None, false),
        Err(UsmError::Io(IoError::UnexpectedEof))
    ));
}

#[test]
fn truncated_chunks_keep_what_came_before() {
    let mut data = usm(None, false, &[chunk(b"@SFV", &[1, 2], 0), chunk(b"@SFV", &[3; 40], 0)]);
    let closing = chunk(b"@SFV", b"#CONTENTS END", 0).len();
    data.truncate(data.len() - closing - 10);
    let mut reader = Reader::new(data.clone());
    let (name, has_audio) = parse_usm_header(&mut reader, b"x").unwrap();
    assert_eq!(name, b"x".to_vec());
    assert!(!has_audio);
    let (video, audio, status) = extract_usm_chunks(&mut reader, None, false);
    assert_eq!(video, vec![1, 2]);
    assert!(audio.is_empty());
    assert!(matches!(status, Err(UsmError::Io(IoError::UnexpectedEof))));
    assert!(extract_usm(data, b"", None, false).is_err());
}

#[test]
fn usm_error_messages() {
    assert_eq!(UsmError::InvalidCridSignature.message(), "invalid CRID signature");
    assert_eq!(UsmError::ExpectedSignature("@SFV".to_string()).message(), "expected @SFV signature");
    assert_eq!(UsmError::ExpectedMarker("#HEADER END".to_string()).message(), "expected #HEADER END");
    assert_eq!(UsmError::UnknownColumnType(255).message(), "unknown column type: 255");
}

#[test]
fn reads_back_a_built_utf_table() {
    let mut t = UtfTableBuilder::new("CRIUSF_DIR_STREAM");
    t.add_column(ColumnDef::constant("fmtver", Value::U32(7)));
    t.add_column(ColumnDef::per_row("filename", COLUMN_TYPE_STRING));
    t.add_row(vec![("filename".to_string(), Value::String("first.m2v".to_string()))]);
    t.add_row(vec![("filename".to_string(), Value::String("built.m2v".to_string()))]);
    let table = t.build_checked().unwrap();
    let mut d = block(b"CRID", &table);
    let rest = usm(None, false, &[chunk(b"@SFV", &[7], 0)]);
    // Replace the hand-made CRID block of `rest` by the built one.
    let crid_len = 32 + {
        let mut inner = utf_table(None);
        while inner.len() % 4 != 0 {
            inner.push(0);
        }
        inner.len()
    };
    d.extend_from_slice(&rest[crid_len..]);
    let s = extract_usm(d, b"fallback", None, false).unwrap();
    assert_eq!(s.filename, "built.m2v");
    assert_eq!(s.video, vec![7]);
}
