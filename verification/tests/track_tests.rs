use cridecoder::acb::afs::AfsArchive;
use cridecoder::acb::extractor::{
    extract_all_tracks, file_name_for, get_track_data, load_embedded_awb, ExtractError,
};
use cridecoder::acb::track::{
    cue_name_for, extract_table_bytes, extract_track_from_command, extract_tracks_from_event,
    generate_unique_name, AcbHeaderRow, AcbTables, CueNameRow, CueRow, SequenceRow, SynthRow,
    Track, TrackError, TrackEventRow, TrackList, TrackRow, WaveformRow,
};
use cridecoder::acb::AfsError;
use cridecoder::acb::consts::{COLUMN_TYPE_1BYTE, COLUMN_TYPE_2BYTE, COLUMN_TYPE_DATA, COLUMN_TYPE_STRING};
use cridecoder::acb::table::ColumnDef;
use cridecoder::acb::tables::{header_row, read_acb_tables, read_utf_table, stream_awb_names};
use cridecoder::acb::utf::Value;
use cridecoder::usm::UsmError;
use cridecoder::{AcbBuilder, AfsArchiveBuilder, TrackInput, UtfTableBuilder};

fn wav(streaming: i64, enc: i64, stream_id: i64, memory_id: i64, port: i64) -> WaveformRow {
    WaveformRow {
        streaming,
        encode_type: enc,
        stream_awb_id: stream_id,
        memory_awb_id: memory_id,
        stream_awb_port_no: port,
    }
}

fn play(synth: u16) -> Vec<u8> {
    vec![0x07, 0xd0, 4, 0, 2, (synth >> 8) as u8, synth as u8]
}

fn tables(command: Vec<u8>, name: Option<&str>) -> AcbTables {
    AcbTables {
        cues: vec![CueRow { reference_type: 3, reference_index: 0 }],
        nams: vec![CueNameRow { cue_index: 0, cue_name: name.map(|n| n.to_string()) }],
        wavs: Some(vec![wav(0, 2, 0, 5, 0), wav(1, 2, 7, 0, 1)]),
        syns: Some(vec![
            SynthRow { reference_items: Some(vec![0, 1, 0, 0]) },
            SynthRow { reference_items: Some(vec![0, 1, 0, 1]) },
        ]),
        tras: vec![TrackRow { event_index: 0 }],
        tevs: vec![TrackEventRow { command: Some(command) }],
        seqs: None,
    }
}

fn track(name: &str, wav_id: i32) -> Track {
    Track {
        cue_id: 0,
        name: name.to_string(),
        wav_id,
        enc_type: 2,
        is_stream: false,
        stream_awb_id: -1,
    }
}

#[test]
fn test_track_list_single_memory_track() {
    let tl = TrackList::from_tables(&tables(play(0), Some("bgm")));
    assert_eq!(tl.tracks.len(), 1);
    let t = &tl.tracks[0];
    assert_eq!(t.cue_id, 0);
    assert_eq!(t.name, "bgm");
    assert_eq!(t.wav_id, 5);
    assert_eq!(t.enc_type, 2);
    assert!(!t.is_stream);
    assert_eq!(t.stream_awb_id, -1);
}

#[test]
fn test_track_list_streamed_track() {
    let tl = TrackList::from_tables(&tables(play(1), Some("voice")));
    assert_eq!(tl.tracks.len(), 1);
    let t = &tl.tracks[0];
    assert!(t.is_stream);
    assert_eq!(t.wav_id, 7);
    assert_eq!(t.stream_awb_id, 1);
}

#[test]
fn test_track_list_duplicate_names_get_wav_id() {
    let mut cmd = play(0);
    cmd.extend(play(1));
    let tl = TrackList::from_tables(&tables(cmd, Some("se")));
    assert_eq!(tl.tracks.len(), 2);
    assert_eq!(tl.tracks[0].name, "se");
    assert_eq!(tl.tracks[1].name, "se-7");
}

#[test]
fn test_track_list_unknown_name() {
    let tl = TrackList::from_tables(&tables(play(0), None));
    assert_eq!(tl.tracks[0].name, "UNKNOWN-0");
}

#[test]
fn test_track_list_skips_unsupported_reference_type() {
    let mut t = tables(play(0), Some("bgm"));
    t.cues.insert(0, CueRow { reference_type: 1, reference_index: 0 });
    t.cues.push(CueRow { reference_type: 8, reference_index: 0 });
    let tl = TrackList::from_tables(&t);
    assert_eq!(tl.tracks.len(), 2);
    assert_eq!(tl.tracks[0].name, "bgm");
    assert_eq!(tl.tracks[1].name, "bgm-5");
    assert_eq!(
        TrackError::UnsupportedRefType(1).message(),
        "ReferenceType 1 not implemented"
    );
}

#[test]
fn test_track_list_stops_at_end_command() {
    let mut cmd = play(0);
    cmd.extend(vec![0, 0, 0]);
    cmd.extend(play(1));
    let tl = TrackList::from_tables(&tables(cmd, Some("bgm")));
    assert_eq!(tl.tracks.len(), 1);
}

#[test]
fn test_track_list_truncated_command() {
    let mut cmd = play(0);
    cmd.extend(vec![0x07, 0xd0, 9, 0, 2]);
    let tl = TrackList::from_tables(&tables(cmd, Some("bgm")));
    assert_eq!(tl.tracks.len(), 1);
}

#[test]
fn test_track_list_skips_other_commands_and_absent_event() {
    let mut cmd = vec![0x00, 0x01, 2, 9, 9];
    cmd.extend(play(0));
    let mut t = tables(cmd, Some("bgm"));
    t.tras.push(TrackRow { event_index: 0xFFFF });
    t.tras.push(TrackRow { event_index: 5 });
    let tl = TrackList::from_tables(&t);
    assert_eq!(tl.tracks.len(), 1);
    assert_eq!(tl.tracks[0].wav_id, 5);
}

#[test]
fn test_track_list_sequence() {
    let mut t = tables(play(0), Some("bgm"));
    t.tevs.push(TrackEventRow { command: Some(play(1)) });
    t.tras.push(TrackRow { event_index: 1 });
    // The sequence plays track rows 1 and 0, then names an index past the table.
    t.seqs = Some(vec![SequenceRow { num_tracks: 3, track_index: Some(vec![0, 1, 0, 0, 0, 9]) }]);
    let tl = TrackList::from_tables(&t);
    assert_eq!(tl.tracks.len(), 2);
    assert_eq!(tl.tracks[0].wav_id, 7);
    assert_eq!(tl.tracks[0].name, "bgm");
    assert_eq!(tl.tracks[1].wav_id, 5);
    assert_eq!(tl.tracks[1].name, "bgm-5");
}

#[test]
fn test_track_list_sequence_index_bytes_run_out() {
    let mut t = tables(play(0), Some("bgm"));
    t.seqs = Some(vec![SequenceRow { num_tracks: 4, track_index: Some(vec![0, 0, 0]) }]);
    let tl = TrackList::from_tables(&t);
    assert_eq!(tl.tracks.len(), 1);
}

#[test]
fn test_track_list_cue_past_sequences_walks_all_rows() {
    let mut t = tables(play(0), Some("bgm"));
    t.seqs = Some(vec![]);
    t.tevs.push(TrackEventRow { command: Some(play(1)) });
    t.tras.push(TrackRow { event_index: 1 });
    let tl = TrackList::from_tables(&t);
    assert_eq!(tl.tracks.len(), 2);
}

#[test]
fn test_cue_name_last_row_wins() {
    let names = vec![
        CueNameRow { cue_index: 2, cue_name: Some("first".to_string()) },
        CueNameRow { cue_index: 2, cue_name: Some("second".to_string()) },
        CueNameRow { cue_index: 3, cue_name: None },
    ];
    assert_eq!(cue_name_for(&names, 2), "second");
    assert_eq!(cue_name_for(&names, 3), "");
    assert_eq!(cue_name_for(&names, 4), "");
}

#[test]
fn test_generate_unique_name() {
    let existing = vec![track("a", 1)];
    let current = vec![track("b", 2)];
    assert_eq!(generate_unique_name("c", 0, 9, &existing, &current), "c");
    assert_eq!(generate_unique_name("a", 0, 9, &existing, &current), "a-9");
    assert_eq!(generate_unique_name("b", 0, -4, &existing, &current), "b--4");
    assert_eq!(generate_unique_name("", -3, 9, &existing, &current), "UNKNOWN--3");
    assert_eq!(generate_unique_name("", 2147483647, 0, &[], &[]), "UNKNOWN-2147483647");
    let unknown = vec![track("UNKNOWN-12", 0)];
    assert_eq!(generate_unique_name("", 12, -2147483648, &unknown, &[]), "UNKNOWN-12--2147483648");
}

#[test]
fn test_extract_track_from_command_rejections() {
    let syns = vec![
        SynthRow { reference_items: Some(vec![0, 1, 0, 0]) },
        SynthRow { reference_items: Some(vec![0, 2, 0, 0]) },
        SynthRow { reference_items: None },
        SynthRow { reference_items: Some(vec![0, 1, 0]) },
    ];
    let wavs = vec![wav(0, 2, 0, 5, 0)];
    let names = vec![];
    let got = |p: &[u8]| {
        extract_track_from_command(p, Some(&syns), Some(&wavs), &names, 4, &[], &[])
    };
    assert!(got(&[0, 2, 0]).is_none());
    assert!(got(&[0, 3, 0, 0]).is_none());
    assert!(got(&[0, 2, 0, 9]).is_none());
    assert!(got(&[0, 2, 0, 1]).is_none());
    assert!(got(&[0, 2, 0, 2]).is_none());
    assert!(got(&[0, 2, 0, 3]).is_none());
    let t = got(&[0, 2, 0, 0]).unwrap();
    assert_eq!(t.name, "UNKNOWN-4");
    assert_eq!(t.cue_id, 4);
    assert!(extract_track_from_command(&[0, 2, 0, 0], None, Some(&wavs), &names, 4, &[], &[]).is_none());
    assert!(extract_track_from_command(&[0, 2, 0, 0], Some(&syns), None, &names, 4, &[], &[]).is_none());
    let no_wavs: Vec<WaveformRow> = vec![];
    assert!(extract_track_from_command(&[0, 2, 0, 0], Some(&syns), Some(&no_wavs), &names, 4, &[], &[]).is_none());
}

#[test]
fn test_extract_tracks_from_event_without_command() {
    let names = vec![];
    let ev = TrackEventRow { command: None };
    assert!(extract_tracks_from_event(&ev, None, None, &names, 0, &[]).is_empty());
}

#[test]
fn test_extract_tracks_from_event_names_against_existing() {
    let syns = vec![SynthRow { reference_items: Some(vec![0, 1, 0, 0]) }];
    let wavs = vec![wav(0, 2, 0, 5, 0)];
    let names = vec![CueNameRow { cue_index: 0, cue_name: Some("bgm".to_string()) }];
    let ev = TrackEventRow { command: Some(play(0)) };
    let existing = vec![track("bgm", 5)];
    let ts = extract_tracks_from_event(&ev, Some(&syns), Some(&wavs), &names, 0, &existing);
    assert_eq!(ts.len(), 1);
    assert_eq!(ts[0].name, "bgm-5");
}

fn header() -> AcbHeaderRow {
    AcbHeaderRow {
        cue_table: Some(vec![1]),
        cue_name_table: Some(vec![2]),
        waveform_table: Some(vec![]),
        synth_table: Some(vec![4]),
        track_table: Some(vec![5]),
        track_event_table: None,
        command_table: Some(vec![6]),
        sequence_table: None,
        awb_file: None,
        stream_awb_hash: None,
    }
}

#[test]
fn test_extract_table_bytes() {
    let b = extract_table_bytes(&header()).unwrap();
    assert_eq!(b.cue_table, vec![1]);
    assert_eq!(b.cue_name_table, vec![2]);
    assert_eq!(b.waveform_table, None);
    assert_eq!(b.synth_table, Some(vec![4]));
    assert_eq!(b.track_table, vec![5]);
    assert_eq!(b.track_event_table, vec![6]);
    assert_eq!(b.sequence_table, None);

    let mut h = header();
    h.track_event_table = Some(vec![]);
    assert_eq!(extract_table_bytes(&h).unwrap().track_event_table, Vec::<u8>::new());
}

#[test]
fn test_extract_table_bytes_missing() {
    let mut h = header();
    h.cue_table = None;
    h.track_table = None;
    let e = extract_table_bytes(&h).unwrap_err();
    assert_eq!(e, TrackError::MissingTable("CueTable".to_string()));
    assert_eq!(e.message(), "Missing required table: CueTable");

    let mut h = header();
    h.cue_name_table = None;
    assert_eq!(extract_table_bytes(&h).unwrap_err(), TrackError::MissingTable("CueNameTable".to_string()));

    let mut h = header();
    h.track_table = None;
    assert_eq!(extract_table_bytes(&h).unwrap_err(), TrackError::MissingTable("TrackTable".to_string()));

    let mut h = header();
    h.command_table = None;
    assert_eq!(
        extract_table_bytes(&h).unwrap_err(),
        TrackError::MissingTable("TrackEventTable/CommandTable".to_string())
    );
}

#[test]
fn test_header_table_bytes_no_rows() {
    let e = TrackList::header_table_bytes(&[]).unwrap_err();
    assert_eq!(e, TrackError::NoRows);
    assert_eq!(e.message(), "No rows in UTF table");
    assert!(TrackList::header_table_bytes(&[header()]).is_ok());
}

#[test]
fn test_file_name_for() {
    assert_eq!(file_name_for(&track("bgm", 0)), "bgm.hca");
    let mut t = track("x", 0);
    t.enc_type = 99;
    assert_eq!(file_name_for(&t), "x.99");
    t.enc_type = -7;
    assert_eq!(file_name_for(&t), "x.-7");
    t.enc_type = 0;
    assert_eq!(file_name_for(&t), "x.adx");
}

fn archive(files: &[(u32, Vec<u8>)]) -> Vec<u8> {
    let mut b = AfsArchiveBuilder::new();
    for (id, d) in files {
        b.add_file(*id, d.clone());
    }
    b.build().unwrap()
}

#[test]
fn test_load_embedded_awb() {
    assert!(load_embedded_awb(&None).is_none());
    assert!(load_embedded_awb(&Some(vec![])).is_none());
    assert!(load_embedded_awb(&Some(b"NOPE0000000000000000".to_vec())).is_none());
    let bytes = archive(&[(5, vec![1, 2, 3])]);
    assert!(AfsArchive::sizes_fit(&bytes));
    let a = load_embedded_awb(&Some(bytes)).unwrap();
    assert_eq!(a.files.len(), 1);
}

#[test]
fn test_sizes_fit_rejects_offset_below_aligned_start() {
    // One file whose end offset lies before its aligned start.
    let mut d = vec![0x41, 0x46, 0x53, 0x32, 1, 4, 2, 0];
    d.extend(1u32.to_le_bytes());
    d.extend(32u32.to_le_bytes());
    d.extend(0u16.to_le_bytes());
    d.extend(21u32.to_le_bytes());
    d.extend(22u32.to_le_bytes());
    assert!(!AfsArchive::sizes_fit(&d));
    assert!(AfsArchive::sizes_fit(&[1, 2, 3]));
}

#[test]
fn test_get_track_data() {
    let mut embedded = load_embedded_awb(&Some(archive(&[(5, vec![1; 32])])));
    let mut external = vec![
        AfsArchive::new(archive(&[(7, vec![9; 32])])).unwrap(),
        AfsArchive::new(archive(&[(7, vec![8; 32])])).unwrap(),
    ];
    let mem = track("bgm", 5);
    assert_eq!(get_track_data(&mem, &mut embedded, &mut external).unwrap(), Some(vec![1; 32]));
    let mut streamed = track("v", 7);
    streamed.is_stream = true;
    streamed.stream_awb_id = 1;
    assert_eq!(get_track_data(&streamed, &mut embedded, &mut external).unwrap(), Some(vec![8; 32]));
    streamed.stream_awb_id = 2;
    assert_eq!(get_track_data(&streamed, &mut embedded, &mut external).unwrap(), None);
    let missing = track("m", 6);
    assert_eq!(
        get_track_data(&missing, &mut embedded, &mut external).unwrap_err(),
        ExtractError::Afs(AfsError::CueNotFound(6))
    );
    let mut none = None;
    assert_eq!(get_track_data(&mem, &mut none, &mut external).unwrap(), None);
}

#[test]
fn test_extract_all_tracks() {
    let mut embedded = load_embedded_awb(&Some(archive(&[(5, vec![1; 32]), (6, vec![4; 32])])));
    let mut external = vec![];
    let tl = TrackList { tracks: vec![track("a", 5), track("b", 6), track("c", 9), track("d", 5)] };
    let (out, res) = extract_all_tracks(&tl, &mut embedded, &mut external);
    assert_eq!(res, Err(ExtractError::Afs(AfsError::CueNotFound(9))));
    assert_eq!(out.len(), 2);
    assert_eq!(out[0].file_name, "a.hca");
    assert_eq!(out[0].data, vec![1; 32]);
    assert_eq!(out[1].file_name, "b.hca");
    assert_eq!(out[1].data, vec![4; 32]);

    let tl = TrackList { tracks: vec![track("a", 5), track("d", 6)] };
    let (out, res) = extract_all_tracks(&tl, &mut embedded, &mut external);
    assert!(res.is_ok());
    assert_eq!(out.len(), 2);
}

#[test]
fn built_acb_header_reads_back() {
    let mut builder = AcbBuilder::new();
    builder.add_track(TrackInput::new("one", 4, vec![1, 2, 3]));
    builder.add_track(TrackInput::new("two", 7, vec![9, 8]));
    let (acb, awb) = builder.build().unwrap();
    assert!(awb.is_none());
    let utf = read_utf_table(&acb).unwrap();
    assert_eq!(utf.len(), 1);
    // The builder writes no track table, so no track list can be made.
    assert_eq!(TrackList::new(&utf).unwrap_err(), TrackError::MissingTable("TrackTable".to_string()));
    let header = header_row(&utf[0]);
    assert!(header.cue_table.is_some());
    assert!(header.track_table.is_none());
    assert!(stream_awb_names(&header.stream_awb_hash).is_empty());
    let archive = load_embedded_awb(&header.awb_file).expect("embedded archive");
    let cue_ids: Vec<i32> = archive.files.iter().map(|f| f.cue_id).collect();
    assert_eq!(cue_ids, vec![4, 7]);
}

fn one_row_table(name: &str, cells: Vec<(&str, u8, Value)>) -> Vec<u8> {
    let mut t = UtfTableBuilder::new(name);
    let mut row = Vec::new();
    for (col, typ, v) in cells {
        t.add_column(ColumnDef::per_row(col, typ));
        row.push((col.to_string(), v));
    }
    t.add_row(row);
    t.build()
}

fn acb_with_tables(awb: Vec<u8>) -> Vec<u8> {
    let cues = one_row_table("CueTable", vec![
        ("ReferenceType", COLUMN_TYPE_1BYTE, Value::U8(3)),
        ("ReferenceIndex", COLUMN_TYPE_2BYTE, Value::U16(0)),
    ]);
    let names = one_row_table("CueNameTable", vec![
        ("CueIndex", COLUMN_TYPE_2BYTE, Value::U16(0)),
        ("CueName", COLUMN_TYPE_STRING, Value::String("bgm".to_string())),
    ]);
    let waves = one_row_table("WaveformTable", vec![
        ("Streaming", COLUMN_TYPE_1BYTE, Value::U8(0)),
        ("EncodeType", COLUMN_TYPE_1BYTE, Value::U8(2)),
        ("MemoryAwbId", COLUMN_TYPE_2BYTE, Value::U16(5)),
        ("StreamAwbId", COLUMN_TYPE_2BYTE, Value::U16(0)),
    ]);
    let synths = one_row_table("SynthTable", vec![
        ("ReferenceItems", COLUMN_TYPE_DATA, Value::Data(vec![0, 1, 0, 0])),
    ]);
    let tracks = one_row_table("TrackTable", vec![("EventIndex", COLUMN_TYPE_2BYTE, Value::U16(0))]);
    let events = one_row_table("TrackEventTable", vec![("Command", COLUMN_TYPE_DATA, Value::Data(play(0)))]);
    one_row_table("Header", vec![
        ("CueTable", COLUMN_TYPE_DATA, Value::Data(cues)),
        ("CueNameTable", COLUMN_TYPE_DATA, Value::Data(names)),
        ("WaveformTable", COLUMN_TYPE_DATA, Value::Data(waves)),
        ("SynthTable", COLUMN_TYPE_DATA, Value::Data(synths)),
        ("TrackTable", COLUMN_TYPE_DATA, Value::Data(tracks)),
        ("TrackEventTable", COLUMN_TYPE_DATA, Value::Data(events)),
        ("AwbFile", COLUMN_TYPE_DATA, Value::Data(awb)),
    ])
}

#[test]
fn acb_bytes_give_track_list_and_data() {
    // A whole alignment unit, so that the archive holds all the bytes its
    // offset table counts for the file.
    let wave: Vec<u8> = (0u8..32).collect();
    let mut awb = AfsArchiveBuilder::new();
    awb.add_file(5, wave.clone());
    let acb = acb_with_tables(awb.build().unwrap());
    let utf = read_utf_table(&acb).unwrap();
    let list = TrackList::new(&utf).unwrap();
    assert_eq!(list.tracks.len(), 1);
    let t = &list.tracks[0];
    assert_eq!(t.cue_id, 0);
    assert_eq!(t.name, "bgm");
    assert_eq!(t.wav_id, 5);
    assert_eq!(t.enc_type, 2);
    assert!(!t.is_stream);
    let header = header_row(&utf[0]);
    let mut embedded = load_embedded_awb(&header.awb_file);
    let (out, status) = extract_all_tracks(&list, &mut embedded, &mut Vec::new());
    assert_eq!(status, Ok(()));
    assert_eq!(out.len(), 1);
    assert_eq!(out[0].file_name, "bgm.hca");
    assert_eq!(out[0].data, wave);
}

#[test]
fn unreadable_table_gives_utf_error() {
    let mut h = header();
    h.cue_table = Some(vec![0x41, 0x55, 0x54, 0x46, 0, 0, 0, 0]);
    let tb = extract_table_bytes(&h).unwrap();
    let e = read_acb_tables(&tb).unwrap_err();
    assert_eq!(e, TrackError::Utf(UsmError::InvalidUtfSignature));
    assert_eq!(e.message(), "UTF error: invalid UTF signature");
}

#[test]
fn streaming_archive_names_are_listed() {
    let hash = one_row_table("StreamAwb", vec![("Name", COLUMN_TYPE_STRING, Value::String("bgm_stream".to_string()))]);
    assert_eq!(stream_awb_names(&Some(hash)), vec!["bgm_stream".to_string()]);
    assert!(stream_awb_names(&Some(vec![])).is_empty());
    assert!(stream_awb_names(&None).is_empty());
    assert!(stream_awb_names(&Some(vec![1, 2, 3])).is_empty());
}
