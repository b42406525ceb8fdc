//! Reading an ACB's tables from its bytes: its header @UTF table, the
//! tables held in the header's byte columns, and the columns of their rows
//! that the track walk reads.
//!
//! The @UTF tables are read as the USM reader reads them. An integer column
//! is read as an `i64`, 0 where the row lacks it or holds no integer there;
//! a byte column is present where the row holds a blob under its name; a
//! string column is decoded from Shift-JIS.

use vstd::prelude::*;
use crate::acb::track::{
    acb_tracks, extract_table_bytes, opt_vec, table_bytes_of, track_views, AcbHeaderRow,
    AcbTableBytes, AcbTables, CueNameRow, CueRow, SequenceRow, SynthRow, TrackError,
    TrackEventRow, TrackList, TrackRow, WaveformRow,
};
use crate::reader::{all_ascii, ascii_text, Reader};
use crate::usm::extractor::{
    decode_shift_jis, get_utf_table, row_find, row_get, row_view, shift_jis_text, table_view,
    utf_table_at, UsmError, UsmErrorView, UtfRow, UtfTable, UtfValue, UtfValueView,
};
use vstd::slice::slice_to_vec;

verus! {

/// A cell read as an integer: its value for an integer cell, 0 otherwise
/// (and where there is none).
pub open spec fn cell_int(v: Option<UtfValueView>) -> i64 {
    match v {
        Some(UtfValueView::Byte(x)) => x as i64,
        Some(UtfValueView::SByte(x)) => x as i64,
        Some(UtfValueView::UShort(x)) => x as i64,
        Some(UtfValueView::Short(x)) => x as i64,
        Some(UtfValueView::UInt(x)) => x as i64,
        Some(UtfValueView::Int(x)) => x as i64,
        Some(UtfValueView::ULong(x)) => x as i64,
        _ => 0,
    }
}

/// A cell read as bytes: present for a blob cell.
pub open spec fn cell_bytes(v: Option<UtfValueView>) -> Option<Seq<u8>> {
    match v {
        Some(UtfValueView::Data(b)) => Some(b),
        _ => None,
    }
}

/// A cell read as text: a string cell decoded from Shift-JIS.
pub open spec fn cell_text(v: Option<UtfValueView>) -> Option<Seq<char>> {
    match v {
        Some(UtfValueView::String(b)) => Some(shift_jis_text(b)),
        _ => None,
    }
}

/// An optional string as characters.
pub open spec fn opt_text(o: Option<String>) -> Option<Seq<char>> {
    match o {
        Some(s) => Some(s@),
        None => None,
    }
}

fn key(name: &str) -> (r: String)
    ensures
        r@ == name@,
{
    name.to_owned()
}

/// The integer a row holds under `name`.
pub fn get_int_field(row: &UtfRow, name: &str) -> (r: i64)
    ensures
        r == cell_int(row_get(row_view(row@), name@)),
{
    let k = key(name);
    match row_find(row, &k) {
        Some(i) => match &row[i].1 {
            UtfValue::Byte(x) => *x as i64,
            UtfValue::SByte(x) => *x as i64,
            UtfValue::UShort(x) => *x as i64,
            UtfValue::Short(x) => *x as i64,
            UtfValue::UInt(x) => *x as i64,
            UtfValue::Int(x) => *x as i64,
            UtfValue::ULong(x) => *x as i64,
            _ => 0,
        },
        None => 0,
    }
}

/// The blob a row holds under `name`, if any.
pub fn get_bytes_field(row: &UtfRow, name: &str) -> (r: Option<Vec<u8>>)
    ensures
        opt_vec(r) == cell_bytes(row_get(row_view(row@), name@)),
{
    let k = key(name);
    match row_find(row, &k) {
        Some(i) => match &row[i].1 {
            UtfValue::Data(b) => Some(slice_to_vec(b.as_slice())),
            _ => None,
        },
        None => None,
    }
}

/// The string a row holds under `name`, decoded, if any.
pub fn get_string_field(row: &UtfRow, name: &str) -> (r: Option<String>)
    ensures
        opt_text(r) == cell_text(row_get(row_view(row@), name@)),
        row_get(row_view(row@), name@) matches Some(UtfValueView::String(b)) ==> (all_ascii(b)
            ==> opt_text(r) == Some(ascii_text(b))),
{
    let k = key(name);
    match row_find(row, &k) {
        Some(i) => match &row[i].1 {
            UtfValue::String(b) => Some(decode_shift_jis(b.as_slice())),
            _ => None,
        },
        None => None,
    }
}

/// Read the @UTF table that starts a byte string.
pub fn read_utf_table(bytes: &[u8]) -> (r: Result<UtfTable, UsmError>)
    ensures
        match utf_table_at(bytes@, 0) {
            Ok((rows, _)) => r matches Ok(t) && table_view(t@) == rows,
            Err(e) => r matches Err(g) && g@ == e,
        },
{
    let mut reader = Reader::new(slice_to_vec(bytes));
    get_utf_table(&mut reader)
}

/// The cells of a row as values.
pub type Cells = Seq<(Seq<char>, UtfValueView)>;

/// The byte columns of a header row, as the row holds them.
pub open spec fn header_matches(c: Cells, h: AcbHeaderRow) -> bool {
    &&& opt_vec(h.cue_table) == cell_bytes(row_get(c, "CueTable"@))
    &&& opt_vec(h.cue_name_table) == cell_bytes(row_get(c, "CueNameTable"@))
    &&& opt_vec(h.waveform_table) == cell_bytes(row_get(c, "WaveformTable"@))
    &&& opt_vec(h.synth_table) == cell_bytes(row_get(c, "SynthTable"@))
    &&& opt_vec(h.track_table) == cell_bytes(row_get(c, "TrackTable"@))
    &&& opt_vec(h.track_event_table) == cell_bytes(row_get(c, "TrackEventTable"@))
    &&& opt_vec(h.command_table) == cell_bytes(row_get(c, "CommandTable"@))
    &&& opt_vec(h.sequence_table) == cell_bytes(row_get(c, "SequenceTable"@))
    &&& opt_vec(h.awb_file) == cell_bytes(row_get(c, "AwbFile"@))
    &&& opt_vec(h.stream_awb_hash) == cell_bytes(row_get(c, "StreamAwbHash"@))
}

/// The byte columns of an ACB's header row.
pub fn header_row(row: &UtfRow) -> (r: AcbHeaderRow)
    ensures
        header_matches(row_view(row@), r),
{
    AcbHeaderRow {
        cue_table: get_bytes_field(row, "CueTable"),
        cue_name_table: get_bytes_field(row, "CueNameTable"),
        waveform_table: get_bytes_field(row, "WaveformTable"),
        synth_table: get_bytes_field(row, "SynthTable"),
        track_table: get_bytes_field(row, "TrackTable"),
        track_event_table: get_bytes_field(row, "TrackEventTable"),
        command_table: get_bytes_field(row, "CommandTable"),
        sequence_table: get_bytes_field(row, "SequenceTable"),
        awb_file: get_bytes_field(row, "AwbFile"),
        stream_awb_hash: get_bytes_field(row, "StreamAwbHash"),
    }
}

/// A cue row as its cells give it.
pub open spec fn cue_row_of(c: Cells) -> CueRow {
    CueRow {
        reference_type: cell_int(row_get(c, "ReferenceType"@)),
        reference_index: cell_int(row_get(c, "ReferenceIndex"@)),
    }
}

/// A waveform row as its cells give it.
pub open spec fn waveform_row_of(c: Cells) -> WaveformRow {
    WaveformRow {
        streaming: cell_int(row_get(c, "Streaming"@)),
        encode_type: cell_int(row_get(c, "EncodeType"@)),
        stream_awb_id: cell_int(row_get(c, "StreamAwbId"@)),
        memory_awb_id: cell_int(row_get(c, "MemoryAwbId"@)),
        stream_awb_port_no: cell_int(row_get(c, "StreamAwbPortNo"@)),
    }
}

/// A track row as its cells give it.
pub open spec fn track_row_of(c: Cells) -> TrackRow {
    TrackRow { event_index: cell_int(row_get(c, "EventIndex"@)) }
}

/// A cue name row as its cells give it.
pub open spec fn name_row_matches(c: Cells, r: CueNameRow) -> bool {
    &&& r.cue_index == cell_int(row_get(c, "CueIndex"@))
    &&& opt_text(r.cue_name) == cell_text(row_get(c, "CueName"@))
}

/// A synth row as its cells give it.
pub open spec fn synth_row_matches(c: Cells, r: SynthRow) -> bool {
    opt_vec(r.reference_items) == cell_bytes(row_get(c, "ReferenceItems"@))
}

/// A track event row as its cells give it.
pub open spec fn event_row_matches(c: Cells, r: TrackEventRow) -> bool {
    opt_vec(r.command) == cell_bytes(row_get(c, "Command"@))
}

/// A sequence row as its cells give it.
pub open spec fn sequence_row_matches(c: Cells, r: SequenceRow) -> bool {
    &&& r.num_tracks == cell_int(row_get(c, "NumTracks"@))
    &&& opt_vec(r.track_index) == cell_bytes(row_get(c, "TrackIndex"@))
}

/// The rows of the cue table.
pub fn cue_rows(t: &UtfTable) -> (r: Vec<CueRow>)
    ensures
        r@ == table_view(t@).map_values(|c: Cells| cue_row_of(c)),
{
    let mut out: Vec<CueRow> = Vec::new();
    let mut i: usize = 0;
    while i < t.len()
        invariant
            i <= t@.len(),
            out@ == table_view(t@).take(i as int).map_values(|c: Cells| cue_row_of(c)),
        decreases t@.len() - i,
    {
        let row = CueRow {
            reference_type: get_int_field(&t[i], "ReferenceType"),
            reference_index: get_int_field(&t[i], "ReferenceIndex"),
        };
        out.push(row);
        i = i + 1;
        assert(table_view(t@).take(i as int) =~= table_view(t@).take(i - 1).push(
            row_view(t@[i - 1]@),
        ));
    }
    assert(table_view(t@).take(i as int) =~= table_view(t@));
    out
}

/// The rows of the waveform table.
pub fn waveform_rows(t: &UtfTable) -> (r: Vec<WaveformRow>)
    ensures
        r@ == table_view(t@).map_values(|c: Cells| waveform_row_of(c)),
{
    let mut out: Vec<WaveformRow> = Vec::new();
    let mut i: usize = 0;
    while i < t.len()
        invariant
            i <= t@.len(),
            out@ == table_view(t@).take(i as int).map_values(|c: Cells| waveform_row_of(c)),
        decreases t@.len() - i,
    {
        let row = WaveformRow {
            streaming: get_int_field(&t[i], "Streaming"),
            encode_type: get_int_field(&t[i], "EncodeType"),
            stream_awb_id: get_int_field(&t[i], "StreamAwbId"),
            memory_awb_id: get_int_field(&t[i], "MemoryAwbId"),
            stream_awb_port_no: get_int_field(&t[i], "StreamAwbPortNo"),
        };
        out.push(row);
        i = i + 1;
        assert(table_view(t@).take(i as int) =~= table_view(t@).take(i - 1).push(
            row_view(t@[i - 1]@),
        ));
    }
    assert(table_view(t@).take(i as int) =~= table_view(t@));
    out
}

/// The rows of the track table.
pub fn track_rows(t: &UtfTable) -> (r: Vec<TrackRow>)
    ensures
        r@ == table_view(t@).map_values(|c: Cells| track_row_of(c)),
{
    let mut out: Vec<TrackRow> = Vec::new();
    let mut i: usize = 0;
    while i < t.len()
        invariant
            i <= t@.len(),
            out@ == table_view(t@).take(i as int).map_values(|c: Cells| track_row_of(c)),
        decreases t@.len() - i,
    {
        let row = TrackRow { event_index: get_int_field(&t[i], "EventIndex") };
        out.push(row);
        i = i + 1;
        assert(table_view(t@).take(i as int) =~= table_view(t@).take(i - 1).push(
            row_view(t@[i - 1]@),
        ));
    }
    assert(table_view(t@).take(i as int) =~= table_view(t@));
    out
}

/// The rows of the cue name table.
pub fn name_rows(t: &UtfTable) -> (r: Vec<CueNameRow>)
    ensures
        r@.len() == t@.len(),
        forall|i: int| 0 <= i < t@.len() ==> name_row_matches(table_view(t@)[i], #[trigger] r@[i]),
{
    let mut out: Vec<CueNameRow> = Vec::new();
    let mut i: usize = 0;
    while i < t.len()
        invariant
            i <= t@.len(),
            out@.len() == i,
            forall|j: int| 0 <= j < i ==> name_row_matches(table_view(t@)[j], #[trigger] out@[j]),
        decreases t@.len() - i,
    {
        let row = CueNameRow {
            cue_index: get_int_field(&t[i], "CueIndex"),
            cue_name: get_string_field(&t[i], "CueName"),
        };
        out.push(row);
        i = i + 1;
    }
    out
}

/// The rows of the synth table.
pub fn synth_rows(t: &UtfTable) -> (r: Vec<SynthRow>)
    ensures
        r@.len() == t@.len(),
        forall|i: int| 0 <= i < t@.len() ==> synth_row_matches(table_view(t@)[i], #[trigger] r@[i]),
{
    let mut out: Vec<SynthRow> = Vec::new();
    let mut i: usize = 0;
    while i < t.len()
        invariant
            i <= t@.len(),
            out@.len() == i,
            forall|j: int| 0 <= j < i ==> synth_row_matches(table_view(t@)[j], #[trigger] out@[j]),
        decreases t@.len() - i,
    {
        let row = SynthRow { reference_items: get_bytes_field(&t[i], "ReferenceItems") };
        out.push(row);
        i = i + 1;
    }
    out
}

/// The rows of the track event (or command) table.
pub fn event_rows(t: &UtfTable) -> (r: Vec<TrackEventRow>)
    ensures
        r@.len() == t@.len(),
        forall|i: int| 0 <= i < t@.len() ==> event_row_matches(table_view(t@)[i], #[trigger] r@[i]),
{
    let mut out: Vec<TrackEventRow> = Vec::new();
    let mut i: usize = 0;
    while i < t.len()
        invariant
            i <= t@.len(),
            out@.len() == i,
            forall|j: int| 0 <= j < i ==> event_row_matches(table_view(t@)[j], #[trigger] out@[j]),
        decreases t@.len() - i,
    {
        let row = TrackEventRow { command: get_bytes_field(&t[i], "Command") };
        out.push(row);
        i = i + 1;
    }
    out
}

/// The rows of the sequence table.
pub fn sequence_rows(t: &UtfTable) -> (r: Vec<SequenceRow>)
    ensures
        r@.len() == t@.len(),
        forall|i: int|
            0 <= i < t@.len() ==> sequence_row_matches(table_view(t@)[i], #[trigger] r@[i]),
{
    let mut out: Vec<SequenceRow> = Vec::new();
    let mut i: usize = 0;
    while i < t.len()
        invariant
            i <= t@.len(),
            out@.len() == i,
            forall|j: int|
                0 <= j < i ==> sequence_row_matches(table_view(t@)[j], #[trigger] out@[j]),
        decreases t@.len() - i,
    {
        let row = SequenceRow {
            num_tracks: get_int_field(&t[i], "NumTracks"),
            track_index: get_bytes_field(&t[i], "TrackIndex"),
        };
        out.push(row);
        i = i + 1;
    }
    out
}

/// The rows of the @UTF table that starts some bytes, or why they cannot
/// be read.
pub open spec fn table_rows(b: Seq<u8>) -> Result<Seq<Cells>, UsmErrorView> {
    match utf_table_at(b, 0) {
        Ok((rows, _)) => Ok(rows),
        Err(e) => Err(e),
    }
}

/// The rows of an optional table.
pub open spec fn opt_table_rows(b: Option<Seq<u8>>) -> Result<Option<Seq<Cells>>, UsmErrorView> {
    match b {
        None => Ok(None),
        Some(b) => match table_rows(b) {
            Ok(rows) => Ok(Some(rows)),
            Err(e) => Err(e),
        },
    }
}

/// An optional table as its rows.
pub open spec fn opt_table_view(t: Option<UtfTable>) -> Option<Seq<Cells>> {
    match t {
        Some(t) => Some(table_view(t@)),
        None => None,
    }
}

/// Cue name rows as the rows of their table give them.
pub open spec fn name_rows_match(rows: Seq<Cells>, v: Seq<CueNameRow>) -> bool {
    &&& v.len() == rows.len()
    &&& forall|i: int| 0 <= i < rows.len() ==> name_row_matches(rows[i], #[trigger] v[i])
}

/// Synth rows as the rows of their table give them.
pub open spec fn synth_rows_match(rows: Seq<Cells>, v: Seq<SynthRow>) -> bool {
    &&& v.len() == rows.len()
    &&& forall|i: int| 0 <= i < rows.len() ==> synth_row_matches(rows[i], #[trigger] v[i])
}

/// Track event rows as the rows of their table give them.
pub open spec fn event_rows_match(rows: Seq<Cells>, v: Seq<TrackEventRow>) -> bool {
    &&& v.len() == rows.len()
    &&& forall|i: int| 0 <= i < rows.len() ==> event_row_matches(rows[i], #[trigger] v[i])
}

/// Sequence rows as the rows of their table give them.
pub open spec fn sequence_rows_match(rows: Seq<Cells>, v: Seq<SequenceRow>) -> bool {
    &&& v.len() == rows.len()
    &&& forall|i: int| 0 <= i < rows.len() ==> sequence_row_matches(rows[i], #[trigger] v[i])
}

/// An ACB's tables as the rows of the @UTF tables give them; an optional
/// table is present exactly where its rows are.
pub open spec fn tables_match(
    t: AcbTables,
    cues: Seq<Cells>,
    nams: Seq<Cells>,
    wavs: Option<Seq<Cells>>,
    syns: Option<Seq<Cells>>,
    tras: Seq<Cells>,
    tevs: Seq<Cells>,
    seqs: Option<Seq<Cells>>,
) -> bool {
    &&& t.cues@ == cues.map_values(|c: Cells| cue_row_of(c))
    &&& name_rows_match(nams, t.nams@)
    &&& match (wavs, t.wavs) {
        (None, None) => true,
        (Some(w), Some(v)) => v@ == w.map_values(|c: Cells| waveform_row_of(c)),
        _ => false,
    }
    &&& match (syns, t.syns) {
        (None, None) => true,
        (Some(w), Some(v)) => synth_rows_match(w, v@),
        _ => false,
    }
    &&& t.tras@ == tras.map_values(|c: Cells| track_row_of(c))
    &&& event_rows_match(tevs, t.tevs@)
    &&& match (seqs, t.seqs) {
        (None, None) => true,
        (Some(w), Some(v)) => sequence_rows_match(w, v@),
        _ => false,
    }
}

/// The error of a table that could not be read.
pub open spec fn utf_error(r: Result<AcbTables, TrackError>, e: UsmErrorView) -> bool {
    r matches Err(TrackError::Utf(g)) && g@ == e
}

/// What reading an ACB's tables gives: the tables are read in the order
/// cue, cue name, waveform, synth, track, track event, sequence, and the
/// first that cannot be read gives the error.
pub open spec fn tables_read(tb: AcbTableBytes, r: Result<AcbTables, TrackError>) -> bool {
    match table_rows(tb.cue_table@) {
        Err(e) => utf_error(r, e),
        Ok(cues) => match table_rows(tb.cue_name_table@) {
            Err(e) => utf_error(r, e),
            Ok(nams) => match opt_table_rows(opt_vec(tb.waveform_table)) {
                Err(e) => utf_error(r, e),
                Ok(wavs) => match opt_table_rows(opt_vec(tb.synth_table)) {
                    Err(e) => utf_error(r, e),
                    Ok(syns) => match table_rows(tb.track_table@) {
                        Err(e) => utf_error(r, e),
                        Ok(tras) => match table_rows(tb.track_event_table@) {
                            Err(e) => utf_error(r, e),
                            Ok(tevs) => match opt_table_rows(opt_vec(tb.sequence_table)) {
                                Err(e) => utf_error(r, e),
                                Ok(seqs) => r matches Ok(t) && tables_match(
                                    t,
                                    cues,
                                    nams,
                                    wavs,
                                    syns,
                                    tras,
                                    tevs,
                                    seqs,
                                ),
                            },
                        },
                    },
                },
            },
        },
    }
}

fn read_table(b: &Vec<u8>) -> (r: Result<UtfTable, TrackError>)
    ensures
        match table_rows(b@) {
            Ok(rows) => r matches Ok(t) && table_view(t@) == rows,
            Err(e) => r matches Err(TrackError::Utf(g)) && g@ == e,
        },
{
    match read_utf_table(b.as_slice()) {
        Ok(t) => Ok(t),
        Err(e) => Err(TrackError::Utf(e)),
    }
}

fn read_opt_table(b: &Option<Vec<u8>>) -> (r: Result<Option<UtfTable>, TrackError>)
    ensures
        match opt_table_rows(opt_vec(*b)) {
            Ok(rows) => r matches Ok(t) && opt_table_view(t) == rows,
            Err(e) => r matches Err(TrackError::Utf(g)) && g@ == e,
        },
{
    match b {
        Some(v) => match read_table(v) {
            Ok(t) => Ok(Some(t)),
            Err(e) => Err(e),
        },
        None => Ok(None),
    }
}

/// Read an ACB's tables from their bytes, in the order cue, cue name,
/// waveform, synth, track, track event, sequence; the first that is no
/// @UTF table gives the error.
pub fn read_acb_tables(tb: &AcbTableBytes) -> (r: Result<AcbTables, TrackError>)
    ensures
        tables_read(*tb, r),
{
    let cues = match read_table(&tb.cue_table) {
        Ok(t) => t,
        Err(e) => return Err(e),
    };
    let nams = match read_table(&tb.cue_name_table) {
        Ok(t) => t,
        Err(e) => return Err(e),
    };
    let wavs = match read_opt_table(&tb.waveform_table) {
        Ok(t) => t,
        Err(e) => return Err(e),
    };
    let syns = match read_opt_table(&tb.synth_table) {
        Ok(t) => t,
        Err(e) => return Err(e),
    };
    let tras = match read_table(&tb.track_table) {
        Ok(t) => t,
        Err(e) => return Err(e),
    };
    let tevs = match read_table(&tb.track_event_table) {
        Ok(t) => t,
        Err(e) => return Err(e),
    };
    let seqs = match read_opt_table(&tb.sequence_table) {
        Ok(t) => t,
        Err(e) => return Err(e),
    };
    let wav_rows = match &wavs {
        Some(t) => Some(waveform_rows(t)),
        None => None,
    };
    let syn_rows = match &syns {
        Some(t) => Some(synth_rows(t)),
        None => None,
    };
    let seq_rows = match &seqs {
        Some(t) => Some(sequence_rows(t)),
        None => None,
    };
    Ok(AcbTables {
        cues: cue_rows(&cues),
        nams: name_rows(&nams),
        wavs: wav_rows,
        syns: syn_rows,
        tras: track_rows(&tras),
        tevs: event_rows(&tevs),
        seqs: seq_rows,
    })
}

/// The track list that read tables give.
pub open spec fn list_from_tables(
    rt: Result<AcbTables, TrackError>,
    r: Result<TrackList, TrackError>,
) -> bool {
    match rt {
        Err(e) => r == Err::<TrackList, TrackError>(e),
        Ok(t) => r matches Ok(tl) && track_views(tl.tracks@) == acb_tracks(t),
    }
}

/// The track list that the tables of a header row give: the tables that
/// their bytes read as, walked.
pub open spec fn list_from_bytes(
    b: Result<AcbTableBytes, TrackError>,
    r: Result<TrackList, TrackError>,
) -> bool {
    match b {
        Err(e) => r == Err::<TrackList, TrackError>(e),
        Ok(tb) => exists|rt: Result<AcbTables, TrackError>|
            #[trigger] tables_read(tb, rt) && list_from_tables(rt, r),
    }
}

impl TrackList {
    /// The track list of an ACB from its header @UTF table: the byte
    /// columns of its first row, the tables they hold, read as @UTF tables,
    /// and the track walk over them. An empty header table gives `NoRows`.
    pub fn new(utf: &UtfTable) -> (r: Result<TrackList, TrackError>)
        ensures
            utf@.len() == 0 ==> r == Err::<TrackList, TrackError>(TrackError::NoRows),
            utf@.len() > 0 ==> exists|h: AcbHeaderRow, b: Result<AcbTableBytes, TrackError>|
                #![trigger header_matches(row_view(utf@[0]@), h), table_bytes_of(h, b)]
                header_matches(row_view(utf@[0]@), h) && table_bytes_of(h, b)
                    && list_from_bytes(b, r),
    {
        if utf.len() == 0 {
            return Err(TrackError::NoRows);
        }
        let h = header_row(&utf[0]);
        let b = extract_table_bytes(&h);
        let ghost gb = b;
        let r = match b {
            Err(e) => Err(e),
            Ok(tb) => {
                let rt = read_acb_tables(&tb);
                let ghost grt = rt;
                let r = match rt {
                    Err(e) => Err(e),
                    Ok(t) => Ok(TrackList::from_tables(&t)),
                };
                assert(tables_read(tb, grt) && list_from_tables(grt, r));
                r
            },
        };
        assert(header_matches(row_view(utf@[0]@), h) && table_bytes_of(h, gb));
        assert(list_from_bytes(gb, r));
        r
    }
}

/// The names that the rows of a streaming-archive table give, in order:
/// each row's `Name` string, where it has one.
pub open spec fn awb_names_of(rows: Seq<Cells>) -> Seq<Seq<char>>
    decreases rows.len(),
{
    if rows.len() == 0 {
        Seq::empty()
    } else {
        let before = awb_names_of(rows.drop_last());
        match cell_text(row_get(rows.last(), "Name"@)) {
            Some(n) => before.push(n),
            None => before,
        }
    }
}

/// The names of the streaming archives that a header's `StreamAwbHash`
/// column lists: none where the column is absent or empty, or holds no
/// @UTF table.
pub open spec fn stream_awb_names_of(hash: Option<Seq<u8>>) -> Seq<Seq<char>> {
    match hash {
        Some(b) => if b.len() > 0 {
            match table_rows(b) {
                Ok(rows) => awb_names_of(rows),
                Err(_) => Seq::empty(),
            }
        } else {
            Seq::empty()
        },
        None => Seq::empty(),
    }
}

/// Strings as characters.
pub open spec fn texts(v: Seq<String>) -> Seq<Seq<char>> {
    v.map_values(|s: String| s@)
}

/// The names of the streaming archives that an ACB's `StreamAwbHash`
/// column lists.
pub fn stream_awb_names(hash: &Option<Vec<u8>>) -> (r: Vec<String>)
    ensures
        texts(r@) == stream_awb_names_of(opt_vec(*hash)),
{
    let mut out: Vec<String> = Vec::new();
    let b = match hash {
        Some(b) => b,
        None => return out,
    };
    if b.len() == 0 {
        assert(texts(out@) =~= Seq::<Seq<char>>::empty());
        return out;
    }
    let t = match read_utf_table(b.as_slice()) {
        Ok(t) => t,
        Err(_) => {
            assert(texts(out@) =~= Seq::<Seq<char>>::empty());
            return out;
        },
    };
    let mut i: usize = 0;
    assert(table_view(t@).take(0) =~= Seq::<Cells>::empty());
    assert(texts(out@) =~= Seq::<Seq<char>>::empty());
    while i < t.len()
        invariant
            i <= t@.len(),
            texts(out@) == awb_names_of(table_view(t@).take(i as int)),
        decreases t@.len() - i,
    {
        let ghost before = out@;
        let name = get_string_field(&t[i], "Name");
        assert(table_view(t@).take(i + 1).drop_last() =~= table_view(t@).take(i as int));
        match name {
            Some(n) => {
                out.push(n);
                assert(texts(out@) =~= texts(before).push(n@));
            },
            None => {},
        }
        i = i + 1;
    }
    assert(table_view(t@).take(i as int) =~= table_view(t@));
    out
}

} // verus!
