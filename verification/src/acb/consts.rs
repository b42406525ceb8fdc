//! Constants of the @UTF table format and of ACB waveform encodings.

use vstd::prelude::*;

verus! {

// Column descriptor byte: the upper nibble is a set of independent flags,
// the lower nibble the value type.
pub const COLUMN_FLAG_MASK: u8 = 0xF0;
/// The column has a name.
pub const COLUMN_FLAG_NAME: u8 = 0x10;
/// The value is stored once, in the schema (constant for all rows).
pub const COLUMN_FLAG_DEFAULT: u8 = 0x20;
/// The value is stored in each row.
pub const COLUMN_FLAG_ROW: u8 = 0x40;
/// Never set in valid tables.
pub const COLUMN_FLAG_UNDEFINED: u8 = 0x80;

pub const COLUMN_TYPE_MASK: u8 = 0x0F;
/// u8
pub const COLUMN_TYPE_1BYTE: u8 = 0x00;
/// i8
pub const COLUMN_TYPE_1BYTE2: u8 = 0x01;
/// u16
pub const COLUMN_TYPE_2BYTE: u8 = 0x02;
/// i16
pub const COLUMN_TYPE_2BYTE2: u8 = 0x03;
/// u32
pub const COLUMN_TYPE_4BYTE: u8 = 0x04;
/// i32
pub const COLUMN_TYPE_4BYTE2: u8 = 0x05;
/// u64
pub const COLUMN_TYPE_8BYTE: u8 = 0x06;
/// f32
pub const COLUMN_TYPE_FLOAT: u8 = 0x08;
/// Offset into the string table.
pub const COLUMN_TYPE_STRING: u8 = 0x0A;
/// Offset and size into the data area.
pub const COLUMN_TYPE_DATA: u8 = 0x0B;

// Waveform encoding types.
pub const WAVEFORM_ENCODE_TYPE_ADX: i32 = 0;
pub const WAVEFORM_ENCODE_TYPE_AHX: i32 = 1;
pub const WAVEFORM_ENCODE_TYPE_HCA: i32 = 2;
pub const WAVEFORM_ENCODE_TYPE_ADX_ALT: i32 = 3;
pub const WAVEFORM_ENCODE_TYPE_WII_ADPCM: i32 = 4;
pub const WAVEFORM_ENCODE_TYPE_DS_ADPCM: i32 = 5;
pub const WAVEFORM_ENCODE_TYPE_HCA_MX: i32 = 6;
pub const WAVEFORM_ENCODE_TYPE_VAG: i32 = 7;
pub const WAVEFORM_ENCODE_TYPE_ATRAC3: i32 = 8;
pub const WAVEFORM_ENCODE_TYPE_BCWAV: i32 = 9;
pub const WAVEFORM_ENCODE_TYPE_HEVAG: i32 = 10;
pub const WAVEFORM_ENCODE_TYPE_ATRAC9: i32 = 11;
pub const WAVEFORM_ENCODE_TYPE_XMA: i32 = 12;
pub const WAVEFORM_ENCODE_TYPE_NINTENDO_DSP: i32 = 13;
pub const WAVEFORM_ENCODE_TYPE_PS4_ATRAC9: i32 = 18;
pub const WAVEFORM_ENCODE_TYPE_M4A: i32 = 19;
pub const WAVEFORM_ENCODE_TYPE_SWITCH_OPUS: i32 = 24;

/// File extension (with the dot) of each known encode type; empty for the
/// others. HCA-MX is an ordinary HCA bitstream and gets ".hca".
pub open spec fn spec_wave_type_extension(enc_type: i32) -> Seq<char> {
    if enc_type == 0 || enc_type == 3 {
        seq!['.', 'a', 'd', 'x']
    } else if enc_type == 1 {
        seq!['.', 'a', 'h', 'x']
    } else if enc_type == 2 || enc_type == 6 {
        seq!['.', 'h', 'c', 'a']
    } else if enc_type == 4 {
        seq!['.', 'w', 'i', 'i', 'a', 'd', 'p', 'c', 'm']
    } else if enc_type == 5 {
        seq!['.', 'd', 's', 'a', 'd', 'p', 'c', 'm']
    } else if enc_type == 7 || enc_type == 10 {
        seq!['.', 'v', 'a', 'g']
    } else if enc_type == 8 {
        seq!['.', 'a', 't', '3']
    } else if enc_type == 9 {
        seq!['.', 'b', 'c', 'w', 'a', 'v']
    } else if enc_type == 11 || enc_type == 18 {
        seq!['.', 'a', 't', '9']
    } else if enc_type == 12 {
        seq!['.', 'x', 'm', 'a']
    } else if enc_type == 13 {
        seq!['.', 'd', 's', 'p']
    } else if enc_type == 19 {
        seq!['.', 'm', '4', 'a']
    } else if enc_type == 24 {
        seq!['.', 'l', 'o', 'p', 'u', 's']
    } else {
        Seq::empty()
    }
}

/// File extension for a waveform encode type.
pub fn wave_type_extension(enc_type: i32) -> (r: &'static str)
    ensures
        r@ == spec_wave_type_extension(enc_type),
{
    let r = match enc_type {
        WAVEFORM_ENCODE_TYPE_ADX | WAVEFORM_ENCODE_TYPE_ADX_ALT => ".adx",
        WAVEFORM_ENCODE_TYPE_AHX => ".ahx",
        WAVEFORM_ENCODE_TYPE_HCA => ".hca",
        WAVEFORM_ENCODE_TYPE_WII_ADPCM => ".wiiadpcm",
        WAVEFORM_ENCODE_TYPE_DS_ADPCM => ".dsadpcm",
        WAVEFORM_ENCODE_TYPE_HCA_MX => ".hca",
        WAVEFORM_ENCODE_TYPE_VAG | WAVEFORM_ENCODE_TYPE_HEVAG => ".vag",
        WAVEFORM_ENCODE_TYPE_ATRAC3 => ".at3",
        WAVEFORM_ENCODE_TYPE_BCWAV => ".bcwav",
        WAVEFORM_ENCODE_TYPE_ATRAC9 | WAVEFORM_ENCODE_TYPE_PS4_ATRAC9 => ".at9",
        WAVEFORM_ENCODE_TYPE_XMA => ".xma",
        WAVEFORM_ENCODE_TYPE_NINTENDO_DSP => ".dsp",
        WAVEFORM_ENCODE_TYPE_M4A => ".m4a",
        WAVEFORM_ENCODE_TYPE_SWITCH_OPUS => ".lopus",
        _ => "",
    };
    proof {
        reveal_strlit(".adx");
        reveal_strlit(".ahx");
        reveal_strlit(".hca");
        reveal_strlit(".wiiadpcm");
        reveal_strlit(".dsadpcm");
        reveal_strlit(".vag");
        reveal_strlit(".at3");
        reveal_strlit(".bcwav");
        reveal_strlit(".at9");
        reveal_strlit(".xma");
        reveal_strlit(".dsp");
        reveal_strlit(".m4a");
        reveal_strlit(".lopus");
        reveal_strlit("");
    }
    r
}

} // verus!
