//! The track list of an ACB: which waveform each cue plays, under which
//! name, and from which archive.
//!
//! The ACB's tables are taken here as rows of plain values, one struct per
//! table, holding the columns that the track walk reads; reading them from
//! the bytes of an ACB is in `tables`.

use vstd::prelude::*;
use crate::decimal::{decimal, push_decimal};
use crate::usm::extractor::{usm_error_text, UsmError};

verus! {

/// An audio track: the cue that plays it, its name, its waveform id in the
/// archive, its encode type, and whether it streams from an external archive
/// (and from which).
#[derive(Debug, Clone)]
pub struct Track {
    pub cue_id: i32,
    pub name: String,
    pub wav_id: i32,
    pub enc_type: i32,
    pub is_stream: bool,
    pub stream_awb_id: i32,
}

/// A track as a value: the name by its characters.
pub struct TrackView {
    pub cue_id: i32,
    pub name: Seq<char>,
    pub wav_id: i32,
    pub enc_type: i32,
    pub is_stream: bool,
    pub stream_awb_id: i32,
}

impl View for Track {
    type V = TrackView;

    open spec fn view(&self) -> TrackView {
        TrackView {
            cue_id: self.cue_id,
            name: self.name@,
            wav_id: self.wav_id,
            enc_type: self.enc_type,
            is_stream: self.is_stream,
            stream_awb_id: self.stream_awb_id,
        }
    }
}

/// The tracks of a slice as values.
pub open spec fn track_views(ts: Seq<Track>) -> Seq<TrackView> {
    ts.map_values(|t: Track| t@)
}

/// A row of the cue table.
#[derive(Debug, Clone, Copy)]
pub struct CueRow {
    pub reference_type: i64,
    pub reference_index: i64,
}

/// A row of the cue name table; the name is absent where the row has none.
#[derive(Debug, Clone)]
pub struct CueNameRow {
    pub cue_index: i64,
    pub cue_name: Option<String>,
}

/// A row of the waveform table.
#[derive(Debug, Clone, Copy)]
pub struct WaveformRow {
    pub streaming: i64,
    pub encode_type: i64,
    pub stream_awb_id: i64,
    pub memory_awb_id: i64,
    pub stream_awb_port_no: i64,
}

/// A row of the synth table: its reference items, where it has them.
#[derive(Debug, Clone)]
pub struct SynthRow {
    pub reference_items: Option<Vec<u8>>,
}

/// A row of the track table.
#[derive(Debug, Clone, Copy)]
pub struct TrackRow {
    pub event_index: i64,
}

/// A row of the track event (or command) table: its command bytes, where
/// it has them.
#[derive(Debug, Clone)]
pub struct TrackEventRow {
    pub command: Option<Vec<u8>>,
}

/// A row of the sequence table.
#[derive(Debug, Clone)]
pub struct SequenceRow {
    pub num_tracks: i64,
    pub track_index: Option<Vec<u8>>,
}

/// The name of a cue name row as characters, empty where it has none.
pub open spec fn row_name(r: CueNameRow) -> Seq<char> {
    match r.cue_name {
        Some(n) => n@,
        None => Seq::empty(),
    }
}

/// The name the cue name table gives a cue index: that of the last row
/// whose index (taken as an `i32`) is it, else empty.
pub open spec fn cue_name_of(names: Seq<CueNameRow>, idx: i32) -> Seq<char>
    decreases names.len(),
{
    if names.len() == 0 {
        Seq::empty()
    } else if names.last().cue_index as i32 == idx {
        row_name(names.last())
    } else {
        cue_name_of(names.drop_last(), idx)
    }
}

/// The name of a cue index, looked up in the cue name table.
pub fn cue_name_for(names: &[CueNameRow], idx: i32) -> (r: String)
    ensures
        r@ == cue_name_of(names@, idx),
{
    let mut i: usize = names.len();
    assert(names@.take(i as int) =~= names@);
    while i > 0
        invariant
            i <= names@.len(),
            cue_name_of(names@, idx) == cue_name_of(names@.take(i as int), idx),
        decreases i,
    {
        let row = &names[i - 1];
        assert(names@.take(i as int).drop_last() =~= names@.take(i - 1));
        if row.cue_index as i32 == idx {
            return match &row.cue_name {
                Some(n) => n.clone(),
                None => String::new(),
            };
        }
        i = i - 1;
    }
    String::new()
}

/// Some track of the sequence has the name.
pub open spec fn name_taken(ts: Seq<TrackView>, name: Seq<char>) -> bool {
    exists|i: int| 0 <= i < ts.len() && ts[i].name == name
}

/// The characters `UNKNOWN-`.
pub open spec fn unknown_prefix() -> Seq<char> {
    seq!['U', 'N', 'K', 'N', 'O', 'W', 'N', '-']
}

/// The name a new track gets: its cue's name, or `UNKNOWN-` and the cue
/// index where that is empty; with `-` and the waveform id added when a
/// track before it already has that name.
pub open spec fn unique_name(
    base: Seq<char>,
    ref_index: i32,
    wav_id: i32,
    existing: Seq<TrackView>,
    current: Seq<TrackView>,
) -> Seq<char> {
    let name = if base.len() == 0 {
        unknown_prefix() + decimal(ref_index as int)
    } else {
        base
    };
    if name_taken(existing, name) || name_taken(current, name) {
        name + seq!['-'] + decimal(wav_id as int)
    } else {
        name
    }
}

fn has_name(ts: &[Track], name: &String) -> (r: bool)
    ensures
        r == name_taken(track_views(ts@), name@),
{
    let mut i: usize = 0;
    while i < ts.len()
        invariant
            i <= ts@.len(),
            forall|j: int| 0 <= j < i ==> ts@[j].name@ != name@,
        decreases ts@.len() - i,
    {
        if ts[i].name == *name {
            assert(track_views(ts@)[i as int].name == name@);
            return true;
        }
        i = i + 1;
    }
    assert(!name_taken(track_views(ts@), name@)) by {
        if name_taken(track_views(ts@), name@) {
            let k = choose|k: int| 0 <= k < track_views(ts@).len() && track_views(ts@)[k].name == name@;
            assert(ts@[k].name@ == name@);
        }
    }
    false
}

/// The name for a new track; see `unique_name`.
pub fn generate_unique_name(
    base_name: &str,
    ref_index: i32,
    wav_id: i32,
    existing_tracks: &[Track],
    current_tracks: &[Track],
) -> (r: String)
    ensures
        r@ == unique_name(base_name@, ref_index, wav_id, track_views(existing_tracks@),
            track_views(current_tracks@)),
{
    proof {
        reveal_strlit("UNKNOWN-");
        reveal_strlit("-");
    }
    let mut name = if base_name.is_empty() {
        let mut n = String::from_str("UNKNOWN-");
        assert(n@ =~= unknown_prefix());
        push_decimal(&mut n, ref_index);
        n
    } else {
        String::from_str(base_name)
    };
    let dup = has_name(existing_tracks, &name) || has_name(current_tracks, &name);
    if dup {
        name.append("-");
        push_decimal(&mut name, wav_id);
    }
    name
}

/// Big-endian 16-bit value at a position.
pub open spec fn u16_at(b: Seq<u8>, i: int) -> int {
    b[i] as int * 0x100 + b[i + 1] as int
}

/// What the track walk reads besides the bytes at hand: the synth and
/// waveform tables (absent where the ACB has none), the cue name table, and
/// the cue index the tracks are found under.
pub struct CommandContext {
    pub synths: Option<Seq<SynthRow>>,
    pub waveforms: Option<Seq<WaveformRow>>,
    pub names: Seq<CueNameRow>,
    pub ref_index: i32,
}

/// A slice given or not, as its sequence.
pub open spec fn opt_seq<T>(o: Option<&[T]>) -> Option<Seq<T>> {
    match o {
        Some(s) => Some(s@),
        None => None,
    }
}

/// The track that a waveform row makes, under the context's cue.
pub open spec fn waveform_track(
    w: WaveformRow,
    ctx: CommandContext,
    existing: Seq<TrackView>,
    current: Seq<TrackView>,
) -> TrackView {
    let is_stream = w.streaming != 0;
    let wav_id = if is_stream { w.stream_awb_id as i32 } else { w.memory_awb_id as i32 };
    TrackView {
        cue_id: ctx.ref_index,
        name: unique_name(cue_name_of(ctx.names, ctx.ref_index), ctx.ref_index, wav_id, existing,
            current),
        wav_id,
        enc_type: w.encode_type as i32,
        is_stream,
        stream_awb_id: if is_stream { w.stream_awb_port_no as i32 } else { -1i32 },
    }
}

/// The track that the parameters of a play command name: the parameters
/// start with 2 and a synth index; that synth's reference items start with
/// 1 and a waveform index; each index must fall inside its table.
pub open spec fn command_track(
    p: Seq<u8>,
    ctx: CommandContext,
    existing: Seq<TrackView>,
    current: Seq<TrackView>,
) -> Option<TrackView> {
    if p.len() < 4 || u16_at(p, 0) != 2 {
        None
    } else {
        let syn_idx = u16_at(p, 2);
        match ctx.synths {
            None => None,
            Some(ss) => if syn_idx >= ss.len() {
                None
            } else {
                match ss[syn_idx].reference_items {
                    None => None,
                    Some(r) => if r@.len() < 4 || u16_at(r@, 0) != 1 {
                        None
                    } else {
                        let wav_idx = u16_at(r@, 2);
                        match ctx.waveforms {
                            None => None,
                            Some(ws) => if wav_idx >= ws.len() {
                                None
                            } else {
                                Some(waveform_track(ws[wav_idx], ctx, existing, current))
                            },
                        }
                    },
                }
            },
        }
    }
}

fn read_u16_be(b: &[u8], i: usize) -> (r: u16)
    requires
        i + 1 < b@.len(),
    ensures
        r as int == u16_at(b@, i as int),
{
    (b[i] as u16) * 256 + (b[i + 1] as u16)
}

/// The track named by the parameters of a play command, if they name one.
pub fn extract_track_from_command(
    param_bytes: &[u8],
    syns: Option<&[SynthRow]>,
    wavs: Option<&[WaveformRow]>,
    names: &[CueNameRow],
    ref_index: i32,
    existing_tracks: &[Track],
    current_tracks: &[Track],
) -> (r: Option<Track>)
    ensures
        ({
            let ctx = CommandContext {
                synths: opt_seq(syns),
                waveforms: opt_seq(wavs),
                names: names@,
                ref_index,
            };
            match command_track(param_bytes@, ctx, track_views(existing_tracks@),
                track_views(current_tracks@)) {
                Some(t) => r matches Some(x) && x@ == t,
                None => r is None,
            }
        }),
{
    if param_bytes.len() < 4 {
        return None;
    }
    let u1 = read_u16_be(param_bytes, 0);
    if u1 != 2 {
        return None;
    }
    let syn_idx = read_u16_be(param_bytes, 2) as usize;
    let syns = match syns {
        Some(s) => s,
        None => return None,
    };
    if syn_idx >= syns.len() {
        return None;
    }
    let r_data = match &syns[syn_idx].reference_items {
        Some(d) => d,
        None => return None,
    };
    if r_data.len() < 4 {
        return None;
    }
    let a = read_u16_be(r_data.as_slice(), 0);
    let wav_idx = read_u16_be(r_data.as_slice(), 2) as usize;
    if a != 1 {
        return None;
    }
    let wavs = match wavs {
        Some(w) => w,
        None => return None,
    };
    if wav_idx >= wavs.len() {
        return None;
    }
    let wav_row = wavs[wav_idx];
    let is_stream = wav_row.streaming != 0;
    let enc_type = wav_row.encode_type as i32;
    let wav_id = if is_stream {
        wav_row.stream_awb_id as i32
    } else {
        wav_row.memory_awb_id as i32
    };
    let stream_awb_id = if is_stream {
        wav_row.stream_awb_port_no as i32
    } else {
        -1
    };
    let base_name = cue_name_for(names, ref_index);
    let name = generate_unique_name(base_name.as_str(), ref_index, wav_id, existing_tracks,
        current_tracks);
    Some(Track { cue_id: ref_index, name, wav_id, enc_type, is_stream, stream_awb_id })
}

/// The tracks that a command sequence adds, read from position `k` on,
/// after `current` were added: each command is a 16-bit code, a length
/// byte and that many parameter bytes; code 0, or a command that runs past
/// the end, stops the walk; code 0x07d0 plays a track.
pub open spec fn event_tracks(
    cmd: Seq<u8>,
    k: int,
    ctx: CommandContext,
    existing: Seq<TrackView>,
    current: Seq<TrackView>,
) -> Seq<TrackView>
    decreases cmd.len() - k,
{
    if k < 0 || k + 3 > cmd.len() {
        current
    } else {
        let code = u16_at(cmd, k);
        let k2 = k + 3 + cmd[k + 2] as int;
        if k2 > cmd.len() || code == 0 {
            current
        } else {
            let next = if code == 0x07d0 {
                match command_track(cmd.subrange(k + 3, k2), ctx, existing, current) {
                    Some(t) => current.push(t),
                    None => current,
                }
            } else {
                current
            };
            event_tracks(cmd, k2, ctx, existing, next)
        }
    }
}

/// The tracks that a track event row adds after `existing`: none where the
/// row has no command bytes.
pub open spec fn event_row_tracks(
    ev: TrackEventRow,
    ctx: CommandContext,
    existing: Seq<TrackView>,
) -> Seq<TrackView> {
    match ev.command {
        Some(c) => event_tracks(c@, 0, ctx, existing, Seq::empty()),
        None => Seq::empty(),
    }
}

/// The tracks that the commands of a track event play.
pub fn extract_tracks_from_event(
    track_event: &TrackEventRow,
    syns: Option<&[SynthRow]>,
    wavs: Option<&[WaveformRow]>,
    names: &[CueNameRow],
    ref_index: i32,
    existing_tracks: &[Track],
) -> (r: Vec<Track>)
    ensures
        track_views(r@) == event_row_tracks(*track_event,
            CommandContext { synths: opt_seq(syns), waveforms: opt_seq(wavs), names: names@, ref_index },
            track_views(existing_tracks@)),
{
    let ghost ctx = CommandContext {
        synths: opt_seq(syns),
        waveforms: opt_seq(wavs),
        names: names@,
        ref_index,
    };
    let ghost ex = track_views(existing_tracks@);
    let mut tracks: Vec<Track> = Vec::new();
    let command = match &track_event.command {
        Some(c) => c,
        None => return tracks,
    };
    let ghost cmd = command@;
    assert(track_views(tracks@) =~= Seq::<TrackView>::empty());
    let mut k: usize = 0;
    while k < command.len()
        invariant
            k <= cmd.len(),
            cmd == command@,
            ctx == (CommandContext { synths: opt_seq(syns), waveforms: opt_seq(wavs), names: names@, ref_index }),
            ex == track_views(existing_tracks@),
            event_tracks(cmd, 0, ctx, ex, Seq::empty()) == event_tracks(cmd, k as int, ctx, ex,
                track_views(tracks@)),
        ensures
            event_tracks(cmd, 0, ctx, ex, Seq::empty()) == track_views(tracks@),
        decreases cmd.len() - k,
    {
        if command.len() - k < 3 {
            break;
        }
        let code = read_u16_be(command.as_slice(), k);
        let cmd_len = command[k + 2] as usize;
        let start = k + 3;
        if cmd_len > command.len() - start {
            break;
        }
        let param_bytes = vstd::slice::slice_subrange(command.as_slice(), start, start + cmd_len);
        let ghost before = track_views(tracks@);
        if code == 0 {
            break;
        }
        k = start + cmd_len;
        if code == 0x07d0 {
            let t = extract_track_from_command(param_bytes, syns, wavs, names, ref_index,
                existing_tracks, tracks.as_slice());
            match t {
                Some(t) => {
                    tracks.push(t);
                    assert(track_views(tracks@) =~= before.push(t@));
                },
                None => {},
            }
        }
    }
    tracks
}

/// The list of tracks of an ACB.
#[derive(Debug, Clone)]
pub struct TrackList {
    pub tracks: Vec<Track>,
}

/// The tables of an ACB that the track walk reads; the waveform, synth and
/// sequence tables are absent where the ACB has none.
#[derive(Debug, Clone)]
pub struct AcbTables {
    pub cues: Vec<CueRow>,
    pub nams: Vec<CueNameRow>,
    pub wavs: Option<Vec<WaveformRow>>,
    pub syns: Option<Vec<SynthRow>>,
    pub tras: Vec<TrackRow>,
    pub tevs: Vec<TrackEventRow>,
    pub seqs: Option<Vec<SequenceRow>>,
}

/// A vector given or not, as its sequence.
pub open spec fn opt_vec<T>(o: Option<Vec<T>>) -> Option<Seq<T>> {
    match o {
        Some(v) => Some(v@),
        None => None,
    }
}

/// The context of the tracks found under a cue index.
pub open spec fn table_context(t: AcbTables, ref_index: i32) -> CommandContext {
    CommandContext {
        synths: opt_vec(t.syns),
        waveforms: opt_vec(t.wavs),
        names: t.nams@,
        ref_index,
    }
}

/// The tracks after a track row is walked under a cue index, `acc` being
/// those found before: its event, unless the event index is 0xFFFF or past
/// the event table, adds its tracks.
pub open spec fn track_row_tracks(
    t: AcbTables,
    ref_index: i32,
    track_idx: int,
    acc: Seq<TrackView>,
) -> Seq<TrackView> {
    let e = t.tras@[track_idx].event_index as usize;
    if e == 0xFFFF || e >= t.tevs@.len() {
        acc
    } else {
        acc + event_row_tracks(t.tevs@[e as int], table_context(t, ref_index), acc)
    }
}

fn slice_of<T>(o: &Option<Vec<T>>) -> (r: Option<&[T]>)
    ensures
        opt_seq(r) == opt_vec(*o),
{
    match o {
        Some(v) => Some(v.as_slice()),
        None => None,
    }
}

fn extract_track_from_track_row(
    tables: &AcbTables,
    ref_index: i32,
    track_idx: usize,
    tl: &mut TrackList,
)
    requires
        track_idx < tables.tras@.len(),
    ensures
        track_views(final(tl).tracks@) == track_row_tracks(*tables, ref_index, track_idx as int,
            track_views(old(tl).tracks@)),
{
    let track = tables.tras[track_idx];
    let event_idx = track.event_index as usize;
    if event_idx == 0xFFFF || event_idx >= tables.tevs.len() {
        return;
    }
    let mut tracks = extract_tracks_from_event(
        &tables.tevs[event_idx],
        slice_of(&tables.syns),
        slice_of(&tables.wavs),
        tables.nams.as_slice(),
        ref_index,
        tl.tracks.as_slice(),
    );
    let ghost before = tl.tracks@;
    let ghost added = tracks@;
    tl.tracks.append(&mut tracks);
    assert(track_views(tl.tracks@) =~= track_views(before) + track_views(added));
}

/// The tracks after the first `n` track rows are walked under a cue index.
pub open spec fn direct_tracks(t: AcbTables, ref_index: i32, n: nat, acc: Seq<TrackView>) -> Seq<
    TrackView,
>
    decreases n,
{
    if n == 0 {
        acc
    } else {
        track_row_tracks(t, ref_index, n - 1, direct_tracks(t, ref_index, (n - 1) as nat, acc))
    }
}

fn extract_direct_tracks(tables: &AcbTables, ref_index: i32, tl: &mut TrackList)
    ensures
        track_views(final(tl).tracks@) == direct_tracks(*tables, ref_index,
            tables.tras@.len(), track_views(old(tl).tracks@)),
{
    let mut idx: usize = 0;
    while idx < tables.tras.len()
        invariant
            idx <= tables.tras@.len(),
            track_views(tl.tracks@) == direct_tracks(*tables, ref_index, idx as nat,
                track_views(old(tl).tracks@)),
        decreases tables.tras@.len() - idx,
    {
        extract_track_from_track_row(tables, ref_index, idx, tl);
        idx = idx + 1;
    }
}

/// The tracks after a sequence's track list is walked from entry `i` on:
/// each entry is a big-endian track index, walked where it falls inside the
/// track table; the walk stops after `num` entries or where the index
/// bytes run out.
pub open spec fn sequence_tracks_from(
    t: AcbTables,
    data: Seq<u8>,
    num: int,
    ref_index: i32,
    i: int,
    acc: Seq<TrackView>,
) -> Seq<TrackView>
    decreases num - i,
{
    if i < 0 || i >= num || i * 2 + 1 >= data.len() {
        acc
    } else {
        let idx = u16_at(data, i * 2);
        let next = if idx < t.tras@.len() {
            track_row_tracks(t, ref_index, idx, acc)
        } else {
            acc
        };
        sequence_tracks_from(t, data, num, ref_index, i + 1, next)
    }
}

/// The tracks after the sequence at `ref_index` is walked.
pub open spec fn sequence_tracks(t: AcbTables, ref_index: usize, acc: Seq<TrackView>) -> Seq<
    TrackView,
> {
    match t.seqs {
        Some(ss) => {
            let sq = ss@[ref_index as int];
            match sq.track_index {
                Some(d) => sequence_tracks_from(t, d@, (sq.num_tracks as usize) as int,
                    ref_index as i32, 0, acc),
                None => acc,
            }
        },
        None => acc,
    }
}

fn extract_sequence_tracks(tables: &AcbTables, ref_index: usize, tl: &mut TrackList)
    requires
        tables.seqs matches Some(ss) && ref_index < ss@.len(),
    ensures
        track_views(final(tl).tracks@) == sequence_tracks(*tables, ref_index,
            track_views(old(tl).tracks@)),
{
    let seqs = match &tables.seqs {
        Some(s) => s,
        None => return,
    };
    let sq = &seqs[ref_index];
    let num_tracks = sq.num_tracks as usize;
    let data = match &sq.track_index {
        Some(d) => d,
        None => return,
    };
    let ghost t = *tables;
    let ghost d = data@;
    let ghost cue = ref_index as i32;
    let mut i: usize = 0;
    while i < num_tracks
        invariant
            t == *tables,
            d == data@,
            cue == ref_index as i32,
            sequence_tracks(t, ref_index, track_views(old(tl).tracks@))
                == sequence_tracks_from(t, d, num_tracks as int, cue, i as int,
                track_views(tl.tracks@)),
        ensures
            sequence_tracks(t, ref_index, track_views(old(tl).tracks@)) == track_views(
                tl.tracks@),
        decreases num_tracks - i,
    {
        if i >= data.len() / 2 {
            break;
        }
        let idx = read_u16_be(data.as_slice(), i * 2) as usize;
        if idx < tables.tras.len() {
            extract_track_from_track_row(tables, ref_index as i32, idx, tl);
        }
        i = i + 1;
    }
}

/// Why a track list could not be made.
#[derive(Debug, Clone, PartialEq, Eq)]
pub enum TrackError {
    /// The ACB's header table has no rows.
    NoRows,
    /// A table that the walk needs is absent.
    MissingTable(String),
    /// A cue refers to its tracks in a way other than 3 or 8 (the track
    /// walk skips such cues).
    UnsupportedRefType(i32),
    /// A table could not be read as a @UTF table.
    Utf(UsmError),
}

impl TrackError {
    /// The error as a sentence.
    pub fn message(&self) -> (r: String)
        ensures
            r@ == match self {
                TrackError::NoRows => "No rows in UTF table"@,
                TrackError::MissingTable(name) => "Missing required table: "@ + name@,
                TrackError::UnsupportedRefType(t) => "ReferenceType "@ + decimal(*t as int)
                    + " not implemented"@,
                TrackError::Utf(e) => "UTF error: "@ + usm_error_text(*e),
            },
    {
        match self {
            TrackError::NoRows => String::from_str("No rows in UTF table"),
            TrackError::MissingTable(name) => {
                let mut m = String::from_str("Missing required table: ");
                m.append(name.as_str());
                m
            },
            TrackError::UnsupportedRefType(t) => {
                let mut m = String::from_str("ReferenceType ");
                push_decimal(&mut m, *t);
                m.append(" not implemented");
                m
            },
            TrackError::Utf(e) => {
                let mut m = String::from_str("UTF error: ");
                let t = e.message();
                m.append(t.as_str());
                m
            },
        }
    }
}

/// The tracks after cue `i` on is walked, `acc` being those found before.
/// A cue whose reference type is neither 3 nor 8 is skipped. A cue whose
/// reference index names a row of the sequence table walks that sequence;
/// any other walks every track row.
pub open spec fn cue_tracks_from(t: AcbTables, i: int, acc: Seq<TrackView>) -> Seq<TrackView>
    decreases t.cues@.len() - i,
{
    if i < 0 || i >= t.cues@.len() {
        acc
    } else {
        let cue = t.cues@[i];
        let ref_type = cue.reference_type as i32;
        if ref_type != 3 && ref_type != 8 {
            cue_tracks_from(t, i + 1, acc)
        } else {
            let ref_index = cue.reference_index as usize;
            let next = match t.seqs {
                Some(ss) if ref_index < ss@.len() => sequence_tracks(t, ref_index, acc),
                _ => direct_tracks(t, ref_index as i32, t.tras@.len(), acc),
            };
            cue_tracks_from(t, i + 1, next)
        }
    }
}

/// The tracks of an ACB's tables.
pub open spec fn acb_tracks(t: AcbTables) -> Seq<TrackView> {
    cue_tracks_from(t, 0, Seq::empty())
}

fn extract_tracks_from_tables(tables: &AcbTables, tl: &mut TrackList)
    ensures
        track_views(final(tl).tracks@) == cue_tracks_from(*tables, 0, track_views(old(tl).tracks@)),
{
    let mut i: usize = 0;
    while i < tables.cues.len()
        invariant
            i <= tables.cues@.len(),
            cue_tracks_from(*tables, 0, track_views(old(tl).tracks@)) == cue_tracks_from(
                *tables, i as int, track_views(tl.tracks@)),
        decreases tables.cues@.len() - i,
    {
        let cue_row = tables.cues[i];
        let ref_type = cue_row.reference_type as i32;
        if ref_type == 3 || ref_type == 8 {
            let ref_index = cue_row.reference_index as usize;
            let in_sequence = match &tables.seqs {
                Some(seqs) => ref_index < seqs.len(),
                None => false,
            };
            if in_sequence {
                extract_sequence_tracks(tables, ref_index, tl);
            } else {
                extract_direct_tracks(tables, ref_index as i32, tl);
            }
        }
        i = i + 1;
    }
}

impl TrackList {
    /// The tracks of an ACB's tables: cue by cue, each cue's sequence or
    /// track rows, each track row's event commands; cues of a reference
    /// type other than 3 and 8 are skipped.
    pub fn from_tables(tables: &AcbTables) -> (r: TrackList)
        ensures
            track_views(r.tracks@) == acb_tracks(*tables),
    {
        let mut tl = TrackList { tracks: Vec::new() };
        assert(track_views(tl.tracks@) =~= Seq::<TrackView>::empty());
        extract_tracks_from_tables(tables, &mut tl);
        tl
    }
}

/// The byte columns of an ACB's header row that hold its tables and
/// archives; a column is absent where the row lacks it.
#[derive(Debug, Clone)]
pub struct AcbHeaderRow {
    pub cue_table: Option<Vec<u8>>,
    pub cue_name_table: Option<Vec<u8>>,
    pub waveform_table: Option<Vec<u8>>,
    pub synth_table: Option<Vec<u8>>,
    pub track_table: Option<Vec<u8>>,
    pub track_event_table: Option<Vec<u8>>,
    pub command_table: Option<Vec<u8>>,
    pub sequence_table: Option<Vec<u8>>,
    pub awb_file: Option<Vec<u8>>,
    pub stream_awb_hash: Option<Vec<u8>>,
}

/// The bytes of the tables that the track walk reads, as the header row
/// gives them.
#[derive(Debug, Clone)]
pub struct AcbTableBytes {
    pub cue_table: Vec<u8>,
    pub cue_name_table: Vec<u8>,
    pub waveform_table: Option<Vec<u8>>,
    pub synth_table: Option<Vec<u8>>,
    pub track_table: Vec<u8>,
    pub track_event_table: Vec<u8>,
    pub sequence_table: Option<Vec<u8>>,
}

/// An optional table: present where the column is present and not empty.
pub open spec fn optional_table(c: Option<Vec<u8>>) -> Option<Seq<u8>> {
    match c {
        Some(v) => if v@.len() > 0 { Some(v@) } else { None },
        None => None,
    }
}

/// The error that names a missing table.
pub open spec fn missing(r: Result<AcbTableBytes, TrackError>, name: Seq<char>) -> bool {
    r matches Err(TrackError::MissingTable(n)) && n@ == name
}

/// What reading the tables of a header row gives.
pub open spec fn table_bytes_of(row: AcbHeaderRow, r: Result<AcbTableBytes, TrackError>) -> bool {
    if row.cue_table is None {
        missing(r, "CueTable"@)
    } else if row.cue_name_table is None {
        missing(r, "CueNameTable"@)
    } else if row.track_table is None {
        missing(r, "TrackTable"@)
    } else if row.track_event_table is None && row.command_table is None {
        missing(r, "TrackEventTable/CommandTable"@)
    } else {
        r matches Ok(b) && {
            &&& b.cue_table@ == row.cue_table.unwrap()@
            &&& b.cue_name_table@ == row.cue_name_table.unwrap()@
            &&& b.track_table@ == row.track_table.unwrap()@
            &&& b.track_event_table@ == (match row.track_event_table {
                Some(v) => v@,
                None => row.command_table.unwrap()@,
            })
            &&& opt_vec(b.waveform_table) == optional_table(row.waveform_table)
            &&& opt_vec(b.synth_table) == optional_table(row.synth_table)
            &&& opt_vec(b.sequence_table) == optional_table(row.sequence_table)
        }
    }
}

fn optional_column(c: &Option<Vec<u8>>) -> (r: Option<Vec<u8>>)
    ensures
        opt_vec(r) == optional_table(*c),
{
    match c {
        Some(v) => if v.len() > 0 {
            Some(v.clone())
        } else {
            None
        },
        None => None,
    }
}

fn required_column(c: &Option<Vec<u8>>, name: &str) -> (r: Result<Vec<u8>, TrackError>)
    ensures
        match c {
            Some(v) => r matches Ok(b) && b@ == v@,
            None => r matches Err(TrackError::MissingTable(n)) && n@ == name@,
        },
{
    match c {
        Some(v) => Ok(v.clone()),
        None => Err(TrackError::MissingTable(String::from_str(name))),
    }
}

/// The tables of a header row. The cue, cue name and track tables are
/// required, in that order, and then the track event table, or the command
/// table in its place; each absent one is named in the error. The waveform,
/// synth and sequence tables are kept where present and not empty.
pub fn extract_table_bytes(row: &AcbHeaderRow) -> (r: Result<AcbTableBytes, TrackError>)
    ensures
        table_bytes_of(*row, r),
{
    let cue_table = match required_column(&row.cue_table, "CueTable") {
        Ok(v) => v,
        Err(e) => return Err(e),
    };
    let cue_name_table = match required_column(&row.cue_name_table, "CueNameTable") {
        Ok(v) => v,
        Err(e) => return Err(e),
    };
    let track_table = match required_column(&row.track_table, "TrackTable") {
        Ok(v) => v,
        Err(e) => return Err(e),
    };
    let waveform_table = optional_column(&row.waveform_table);
    let synth_table = optional_column(&row.synth_table);
    let track_event_table = match &row.track_event_table {
        Some(v) => v.clone(),
        None => match &row.command_table {
            Some(v) => v.clone(),
            None => return Err(
                TrackError::MissingTable(String::from_str("TrackEventTable/CommandTable")),
            ),
        },
    };
    let sequence_table = optional_column(&row.sequence_table);
    Ok(AcbTableBytes {
        cue_table,
        cue_name_table,
        waveform_table,
        synth_table,
        track_table,
        track_event_table,
        sequence_table,
    })
}

impl TrackList {
    /// The tables of an ACB's header table, read from its first row; an
    /// error where it has no rows.
    pub fn header_table_bytes(rows: &[AcbHeaderRow]) -> (r: Result<AcbTableBytes, TrackError>)
        ensures
            rows@.len() == 0 ==> r == Err::<AcbTableBytes, TrackError>(TrackError::NoRows),
            rows@.len() > 0 ==> table_bytes_of(rows@[0], r),
    {
        if rows.len() == 0 {
            return Err(TrackError::NoRows);
        }
        extract_table_bytes(&rows[0])
    }
}

} // verus!
