//! How a reader of a built ACB finds each cue's audio: cue row, synth row,
//! waveform row, archive entry.

use crate::acb::builder::{
    awb_files, cue_name_table_view, cue_table_view, synth_table_view, waveform_table_view, TrackInput,
};
use crate::acb::table::row_value;
use crate::acb::utf::ValueView;
use crate::reader::{be16, be16_bytes, law_be16_reads_back};
use vstd::prelude::*;

verus! {

/// The number a 16-bit cell holds; -1 for any other cell or none.
pub open spec fn u16_cell(v: Option<ValueView>) -> int {
    match v {
        Some(ValueView::U16(x)) => x as int,
        _ => -1,
    }
}

/// The bytes a blob cell holds; none for any other cell.
pub open spec fn blob_cell(v: Option<ValueView>) -> Seq<u8> {
    match v {
        Some(ValueView::Data(b)) => b,
        _ => Seq::empty(),
    }
}

proof fn lemma_skip_last(row: Seq<(Seq<char>, ValueView)>, name: Seq<char>)
    requires
        row.len() > 0,
        row.last().0 != name,
    ensures
        row_value(row, name) == row_value(row.drop_last(), name),
{
}

proof fn lemma_hit_last(row: Seq<(Seq<char>, ValueView)>, name: Seq<char>)
    requires
        row.len() > 0,
        row.last().0 == name,
    ensures
        row_value(row, name) == Some(row.last().1),
{
}

/// Following cue `i` of a built ACB leads to track `i`'s audio: the cue's
/// row refers by reference type 3 to synth row `i`; that synth's reference
/// items name one waveform, `i`; waveform row `i` carries id `i`, and the
/// archive id of the archive that holds the audio (the memory archive when
/// embedded, the stream archive when streamed) is `i`, the other id being
/// 0xFFFF; and entry `i` of the archive holds track `i`'s cue id and data.
/// (Past 0x10000 tracks the 16-bit indices wrap and are left out.)
pub proof fn law_cue_resolves_to_its_track(tracks: Seq<TrackInput>, streaming: bool, i: int)
    requires
        0 <= i < tracks.len() <= 0x10000,
    ensures
        ({
            let n = tracks.len() as int;
            let cue = cue_table_view(tracks).rows[i];
            let s = u16_cell(row_value(cue, "ReferenceIndex"@));
            let items = blob_cell(row_value(synth_table_view(n).rows[s], "ReferenceItems"@));
            let w = be16(items.skip(2));
            let wrow = waveform_table_view(tracks, streaming).rows[w];
            let held = u16_cell(
                row_value(wrow, if streaming { "StreamAwbId"@ } else { "MemoryAwbId"@ }),
            );
            let other = u16_cell(
                row_value(wrow, if streaming { "MemoryAwbId"@ } else { "StreamAwbId"@ }),
            );
            &&& row_value(cue, "ReferenceType"@) == Some(ValueView::U8(3))
            &&& s == i
            &&& items.len() == 4 && be16(items) == 1
            &&& w == i
            &&& u16_cell(row_value(wrow, "Id"@)) == i
            &&& held == i
            &&& other == 0xFFFF
            &&& awb_files(tracks)[held] == (tracks[i].cue_id, tracks[i].data@)
            &&& row_value(wrow, "Streaming"@) == Some(ValueView::U8(if streaming { 1u8 } else { 0u8 }))
            &&& row_value(wrow, "EncodeType"@) == Some(ValueView::U8(tracks[i].encode_type as u8))
            &&& row_value(cue, "CueId"@) == Some(ValueView::U32(tracks[i].cue_id))
            &&& u16_cell(row_value(cue_name_table_view(tracks).rows[i], "CueIndex"@)) == i
            &&& row_value(cue_name_table_view(tracks).rows[i], "CueName"@) == Some(
                ValueView::Str(tracks[i].name@),
            )
        }),
{
    reveal_with_fuel(row_value, 6);
    reveal_strlit("CueId");
    reveal_strlit("ReferenceType");
    reveal_strlit("ReferenceIndex");
    reveal_strlit("Type");
    reveal_strlit("VoiceLimitGroupName");
    reveal_strlit("ReferenceItems");
    reveal_strlit("Id");
    reveal_strlit("EncodeType");
    reveal_strlit("Streaming");
    reveal_strlit("MemoryAwbId");
    reveal_strlit("StreamAwbId");
    reveal_strlit("CueIndex");
    reveal_strlit("CueName");
    let n = tracks.len() as int;
    assert((i as u16) as int == i);
    let items = be16_bytes(1) + be16_bytes((i as u16) as int);
    law_be16_reads_back(1);
    law_be16_reads_back(i as u16);
    assert(items.skip(2) =~= be16_bytes((i as u16) as int));
    assert(items.subrange(0, 2) =~= be16_bytes(1));
    assert(be16(items) == be16(be16_bytes(1)));
    let cue = cue_table_view(tracks).rows[i];
    assert(row_value(cue, "ReferenceIndex"@) == Some(ValueView::U16(i as u16)));
    assert(synth_table_view(n).rows[i] == crate::acb::builder::synth_row(i));
    assert(row_value(synth_table_view(n).rows[i], "ReferenceItems"@) == Some(
        ValueView::Data(items),
    ));
    let c = crate::acb::builder::cue_row(tracks[i], i);
    assert(cue == c);
    assert(c.drop_last() =~= c.subrange(0, 2));
    assert(c.last().0 == "ReferenceIndex"@);
    assert("ReferenceIndex"@ != "ReferenceType"@) by {
        assert("ReferenceIndex"@[9] != "ReferenceType"@[9]);
    }
    lemma_skip_last(c, "ReferenceType"@);
    lemma_hit_last(c.subrange(0, 2), "ReferenceType"@);
    let wrow = waveform_table_view(tracks, streaming).rows[i];
    let wr = crate::acb::builder::waveform_row(tracks[i], i, streaming);
    assert(wrow == wr);
    assert(wr.drop_last() =~= wr.subrange(0, 4));
    assert(wr.subrange(0, 4).drop_last() =~= wr.subrange(0, 3));
    assert(wr.subrange(0, 3).drop_last() =~= wr.subrange(0, 2));
    assert(wr.subrange(0, 2).drop_last() =~= wr.subrange(0, 1));
    assert("MemoryAwbId"@ != "StreamAwbId"@) by {
        assert("MemoryAwbId"@[0] != "StreamAwbId"@[0]);
    }
    lemma_hit_last(wr, "StreamAwbId"@);
    lemma_skip_last(wr, "MemoryAwbId"@);
    lemma_hit_last(wr.subrange(0, 4), "MemoryAwbId"@);
    assert("Id"@ != "StreamAwbId"@ && "Id"@ != "MemoryAwbId"@ && "Id"@ != "Streaming"@ && "Id"@
        != "EncodeType"@) by {
        assert("Id"@[0] != "StreamAwbId"@[0]);
        assert("Id"@[0] != "MemoryAwbId"@[0]);
        assert("Id"@[0] != "Streaming"@[0]);
        assert("Id"@[0] != "EncodeType"@[0]);
    }
    assert(wr.last().0 == "StreamAwbId"@);
    lemma_skip_last(wr, "Id"@);
    lemma_skip_last(wr.subrange(0, 4), "Id"@);
    lemma_skip_last(wr.subrange(0, 3), "Id"@);
    lemma_skip_last(wr.subrange(0, 2), "Id"@);
    lemma_hit_last(wr.subrange(0, 1), "Id"@);
    assert("Streaming"@ != "StreamAwbId"@ && "Streaming"@ != "MemoryAwbId"@) by {
        assert("Streaming"@.len() != "StreamAwbId"@.len());
        assert("Streaming"@[0] != "MemoryAwbId"@[0]);
    }
    lemma_skip_last(wr, "Streaming"@);
    lemma_skip_last(wr.subrange(0, 4), "Streaming"@);
    lemma_hit_last(wr.subrange(0, 3), "Streaming"@);
    assert("EncodeType"@ != "StreamAwbId"@ && "EncodeType"@ != "MemoryAwbId"@ && "EncodeType"@
        != "Streaming"@) by {
        assert("EncodeType"@[0] != "StreamAwbId"@[0]);
        assert("EncodeType"@[0] != "MemoryAwbId"@[0]);
        assert("EncodeType"@[0] != "Streaming"@[0]);
    }
    lemma_skip_last(wr, "EncodeType"@);
    lemma_skip_last(wr.subrange(0, 4), "EncodeType"@);
    lemma_skip_last(wr.subrange(0, 3), "EncodeType"@);
    lemma_hit_last(wr.subrange(0, 2), "EncodeType"@);
    assert("CueId"@ != "ReferenceIndex"@ && "CueId"@ != "ReferenceType"@) by {
        assert("CueId"@[0] != "ReferenceIndex"@[0]);
        assert("CueId"@[0] != "ReferenceType"@[0]);
    }
    assert(c.subrange(0, 2).drop_last() =~= c.subrange(0, 1));
    lemma_skip_last(c, "CueId"@);
    lemma_skip_last(c.subrange(0, 2), "CueId"@);
    lemma_hit_last(c.subrange(0, 1), "CueId"@);
    let nr = cue_name_table_view(tracks).rows[i];
    let nrow = crate::acb::builder::cue_name_row(tracks[i], i);
    assert(nr == nrow);
    assert(nrow.drop_last() =~= nrow.subrange(0, 1));
    assert("CueIndex"@ != "CueName"@) by {
        assert("CueIndex"@[3] != "CueName"@[3]);
    }
    lemma_hit_last(nrow, "CueName"@);
    lemma_skip_last(nrow, "CueIndex"@);
    lemma_hit_last(nrow.subrange(0, 1), "CueIndex"@);
}

} // verus!
