//! Pulling the tracks of an ACB out of its archives: the embedded AWB for
//! in-memory waveforms, the external streaming AWBs for the others.

use vstd::prelude::*;
use crate::acb::afs::{
    afs_alignment, afs_entries, afs_header_result, afs_sizes_fit, cue_lookup, entry_bytes, AfsArchive,
    AfsError,
};
use crate::acb::consts::{spec_wave_type_extension, wave_type_extension};
use crate::acb::track::{Track, TrackError, TrackList, TrackView};
use crate::decimal::{decimal, push_decimal};
use crate::usm::extractor::UsmError;

verus! {

/// Why the tracks of an ACB could not be extracted.
#[derive(Debug, Clone, PartialEq, Eq)]
pub enum ExtractError {
    /// The ACB's header could not be read as a @UTF table.
    Utf(UsmError),
    /// The track list could not be made.
    Track(TrackError),
    /// An archive could not be read.
    Afs(AfsError),
    /// The data is not an ACB.
    InvalidAcb,
}

/// The archive a track's waveform lives in: for a streamed track the
/// external archive its stream id picks, where that id is one; for the
/// others the embedded archive, where there is one.
pub open spec fn track_archive(t: TrackView, embedded: Option<AfsArchive>, external: Seq<AfsArchive>) -> Option<AfsArchive> {
    if t.is_stream {
        if t.stream_awb_id >= 0 && (t.stream_awb_id as usize) < external.len() {
            Some(external[(t.stream_awb_id as usize) as int])
        } else {
            None
        }
    } else {
        embedded
    }
}

/// What reading a track's waveform from an archive gives.
pub open spec fn archive_read(a: AfsArchive, wav_id: i32) -> Result<Seq<u8>, AfsError> {
    match cue_lookup(a.entries(), wav_id) {
        Some(e) => entry_bytes(a.data(), e),
        None => Err(AfsError::CueNotFound(wav_id)),
    }
}

/// An archive seen by what reads of it give.
pub open spec fn same_archive(a: AfsArchive, b: AfsArchive) -> bool {
    a.data() == b.data() && a.entries() == b.entries() && a.alignment_value() == b.alignment_value()
}

/// The waveform bytes of a track: none where it has no archive, else what
/// reading its waveform id from that archive gives.
pub fn get_track_data(
    track: &Track,
    embedded_awb: &mut Option<AfsArchive>,
    external_awbs: &mut Vec<AfsArchive>,
) -> (r: Result<Option<Vec<u8>>, ExtractError>)
    ensures
        final(external_awbs)@.len() == old(external_awbs)@.len(),
        forall|i: int| 0 <= i < old(external_awbs)@.len() ==> same_archive(
            #[trigger] final(external_awbs)@[i], old(external_awbs)@[i]),
        final(embedded_awb).is_some() == old(embedded_awb).is_some(),
        old(embedded_awb).is_some() ==> same_archive(final(embedded_awb).unwrap(), old(embedded_awb).unwrap()),
        match track_archive(track@, *old(embedded_awb), old(external_awbs)@) {
            None => r matches Ok(None),
            Some(a) => match archive_read(a, track.wav_id) {
                Ok(d) => r matches Ok(Some(v)) && v@ == d,
                Err(e) => r == Err::<Option<Vec<u8>>, ExtractError>(ExtractError::Afs(e)),
            },
        },
{
    if track.is_stream {
        if track.stream_awb_id >= 0 && (track.stream_awb_id as usize) < external_awbs.len() {
            let awb = &mut external_awbs[track.stream_awb_id as usize];
            return match awb.file_data_for_cue_id(track.wav_id) {
                Ok(d) => Ok(Some(d)),
                Err(e) => Err(ExtractError::Afs(e)),
            };
        }
    } else {
        match embedded_awb {
            Some(awb) => {
                return match awb.file_data_for_cue_id(track.wav_id) {
                    Ok(d) => Ok(Some(d)),
                    Err(e) => Err(ExtractError::Afs(e)),
                };
            },
            None => {},
        }
    }
    Ok(None)
}

/// What a track's waveform read gives: none where it has no archive.
pub open spec fn track_read(t: TrackView, embedded: Option<AfsArchive>, external: Seq<AfsArchive>) -> Option<
    Result<Seq<u8>, AfsError>,
> {
    match track_archive(t, embedded, external) {
        None => None,
        Some(a) => Some(archive_read(a, t.wav_id)),
    }
}

/// Two sets of archives that every read finds the same.
pub open spec fn same_archives(
    e1: Option<AfsArchive>,
    x1: Seq<AfsArchive>,
    e2: Option<AfsArchive>,
    x2: Seq<AfsArchive>,
) -> bool {
    &&& e1.is_some() == e2.is_some()
    &&& e1.is_some() ==> same_archive(e1.unwrap(), e2.unwrap())
    &&& x1.len() == x2.len()
    &&& forall|i: int| 0 <= i < x1.len() ==> same_archive(#[trigger] x1[i], x2[i])
}

proof fn lemma_same_read(
    t: TrackView,
    e1: Option<AfsArchive>,
    x1: Seq<AfsArchive>,
    e2: Option<AfsArchive>,
    x2: Seq<AfsArchive>,
)
    requires
        same_archives(e1, x1, e2, x2),
    ensures
        track_read(t, e1, x1) == track_read(t, e2, x2),
{
    if t.is_stream && t.stream_awb_id >= 0 && (t.stream_awb_id as usize) < x1.len() {
        assert(same_archive(x1[(t.stream_awb_id as usize) as int], x2[(t.stream_awb_id as usize) as int]));
    }
}

/// The file name of a track: its name and the extension of its encode
/// type, or `.` and the encode type's number where the type has none.
pub open spec fn track_file_name(t: TrackView) -> Seq<char> {
    let ext = spec_wave_type_extension(t.enc_type);
    if ext.len() == 0 {
        t.name + seq!['.'] + decimal(t.enc_type as int)
    } else {
        t.name + ext
    }
}

/// The file name of a track; see `track_file_name`.
pub fn file_name_for(track: &Track) -> (r: String)
    ensures
        r@ == track_file_name(track@),
{
    proof {
        reveal_strlit(".");
    }
    let ext = wave_type_extension(track.enc_type);
    let mut name = track.name.clone();
    if ext.is_empty() {
        name.append(".");
        push_decimal(&mut name, track.enc_type);
    } else {
        name.append(ext);
    }
    name
}

/// A track pulled out of its archive: its file name and its bytes.
#[derive(Debug, Clone)]
pub struct ExtractedTrack {
    pub file_name: String,
    pub data: Vec<u8>,
}

/// What extracting the tracks in order gives: for each track that has an
/// archive, its file name and bytes, up to the first failed read, whose
/// error ends the list.
pub open spec fn extraction(
    ts: Seq<TrackView>,
    embedded: Option<AfsArchive>,
    external: Seq<AfsArchive>,
) -> (Seq<(Seq<char>, Seq<u8>)>, Option<AfsError>)
    decreases ts.len(),
{
    if ts.len() == 0 {
        (Seq::empty(), None)
    } else {
        let (out, err) = extraction(ts.drop_last(), embedded, external);
        if err is Some {
            (out, err)
        } else {
            let t = ts.last();
            match track_read(t, embedded, external) {
                None => (out, None),
                Some(Ok(d)) => (out.push((track_file_name(t), d)), None),
                Some(Err(e)) => (out, Some(e)),
            }
        }
    }
}

/// The extracted tracks as values.
pub open spec fn extracted_views(v: Seq<ExtractedTrack>) -> Seq<(Seq<char>, Seq<u8>)> {
    v.map_values(|e: ExtractedTrack| (e.file_name@, e.data@))
}

/// Every track of the list that has an archive, with its file name and
/// bytes, in the list's order; the first failed read stops the walk and is
/// returned beside the tracks extracted before it.
pub fn extract_all_tracks(
    track_list: &TrackList,
    embedded_awb: &mut Option<AfsArchive>,
    external_awbs: &mut Vec<AfsArchive>,
) -> (r: (Vec<ExtractedTrack>, Result<(), ExtractError>))
    ensures
        ({
            let (out, err) = extraction(crate::acb::track::track_views(track_list.tracks@),
                *old(embedded_awb), old(external_awbs)@);
            &&& extracted_views(r.0@) == out
            &&& match err {
                None => r.1 is Ok,
                Some(e) => r.1 == Err::<(), ExtractError>(ExtractError::Afs(e)),
            }
        }),
{
    let ghost e0 = *embedded_awb;
    let ghost x0 = external_awbs@;
    let ghost ts = crate::acb::track::track_views(track_list.tracks@);
    let mut outputs: Vec<ExtractedTrack> = Vec::new();
    let mut i: usize = 0;
    while i < track_list.tracks.len()
        invariant
            i <= track_list.tracks@.len(),
            ts == crate::acb::track::track_views(track_list.tracks@),
            e0 == *old(embedded_awb),
            x0 == old(external_awbs)@,
            same_archives(e0, x0, *embedded_awb, external_awbs@),
            extraction(ts.take(i as int), e0, x0) == (extracted_views(outputs@), None::<AfsError>),
        decreases track_list.tracks@.len() - i,
    {
        let track = &track_list.tracks[i];
        proof {
            assert(ts.take(i + 1).drop_last() =~= ts.take(i as int));
            assert(ts.take(i + 1).last() == track@);
            lemma_same_read(track@, e0, x0, *embedded_awb, external_awbs@);
        }
        let file_name = file_name_for(track);
        let ghost before = outputs@;
        match get_track_data(track, embedded_awb, external_awbs) {
            Ok(Some(data)) => {
                outputs.push(ExtractedTrack { file_name, data });
                assert(extracted_views(outputs@) =~= extracted_views(before).push(
                    (track_file_name(track@), outputs@.last().data@)));
            },
            Ok(None) => {},
            Err(e) => {
                proof {
                    assert(ts.take(track_list.tracks@.len() as int) =~= ts);
                    lemma_error_stays(ts, e0, x0, i as int + 1);
                }
                return (outputs, Err(e));
            },
        }
        i = i + 1;
    }
    proof {
        assert(ts.take(i as int) =~= ts);
    }
    (outputs, Ok(()))
}

proof fn lemma_error_stays(
    ts: Seq<TrackView>,
    e: Option<AfsArchive>,
    x: Seq<AfsArchive>,
    n: int,
)
    requires
        0 <= n <= ts.len(),
        extraction(ts.take(n), e, x).1 is Some,
    ensures
        extraction(ts, e, x) == extraction(ts.take(n), e, x),
    decreases ts.len() - n,
{
    if n < ts.len() {
        assert(ts.take(n + 1).drop_last() =~= ts.take(n));
        lemma_error_stays(ts, e, x, n + 1);
    } else {
        assert(ts.take(n) =~= ts);
    }
}

/// The archive embedded in an ACB, from its AWB column: none where the
/// column is absent or empty, or its header does not parse.
pub fn load_embedded_awb(awb_file: &Option<Vec<u8>>) -> (r: Option<AfsArchive>)
    requires
        awb_file matches Some(d) ==> afs_sizes_fit(d@),
    ensures
        match awb_file {
            Some(d) => if d@.len() > 0 && afs_header_result(d@) is Ok {
                r matches Some(a) && a.data() == d@ && a.entries() == afs_entries(d@)
                    && a.alignment_value() == afs_alignment(d@)
            } else {
                r is None
            },
            None => r is None,
        },
{
    let data = match awb_file {
        Some(d) => d,
        None => return None,
    };
    if data.len() == 0 {
        return None;
    }
    match AfsArchive::new(data.clone()) {
        Ok(a) => Some(a),
        Err(_) => None,
    }
}

} // verus!
