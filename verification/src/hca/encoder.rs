//! The integer side of HCA encoding: configuration, frame size, the stream
//! header, sealing of frames, and the WAV container of the input.

use crate::acb::builder::{write_u16_be, write_u32_be};
use crate::hca::bitreader::{bit_at, value_bit, BitWriter};
use crate::hca::cipher::{adjusted_key, cipher_init, table56};
use crate::hca::crc::{crc16, crc16_checksum};
use crate::hca::hca_file::{spec_wav_header, wav_data_size, wav_header_fits, HcaInfo};
use crate::reader::{
    be16, be16_bytes, be32, be32_bytes, le16, le16_bytes, le32, le32_bytes, lemma_le16_roundtrip,
    lemma_le32_roundtrip,
};
use vstd::prelude::*;
use crate::decimal::{decimal_nat, push_decimal_nat};

verus! {

/// Samples per channel in one frame.
pub const HCA_SAMPLES_PER_FRAME: usize = 1024;
/// Most channels an HCA stream can carry.
pub const HCA_MAX_CHANNELS: u32 = 16;
/// Header version written by the encoder (2.0).
pub const HCA_VERSION_200: u16 = 0x0200;
/// Size of the header the encoder writes.
pub const HCA_HEADER_SIZE: u32 = 0x60;

/// Errors of HCA encoding.
#[derive(Debug, Clone, Copy, PartialEq, Eq, Structural)]
pub enum HcaEncoderError {
    Io,
    InvalidSampleRate(u32),
    InvalidChannelCount(u32),
    FrameTooLarge,
    NoSamples,
}

impl HcaEncoderError {
    /// Human-readable message.
    pub fn message(&self) -> (r: String)
        ensures
            r@ == match self {
                HcaEncoderError::Io => "IO error"@,
                HcaEncoderError::InvalidSampleRate(v) => "Invalid sample rate: "@ + decimal_nat(
                    *v as nat,
                ),
                HcaEncoderError::InvalidChannelCount(v) => "Invalid channel count: "@ + decimal_nat(
                    *v as nat,
                ),
                HcaEncoderError::FrameTooLarge => "Frame too large"@,
                HcaEncoderError::NoSamples => "No samples provided"@,
            },
    {
        match self {
            HcaEncoderError::Io => String::from_str("IO error"),
            HcaEncoderError::InvalidSampleRate(v) => {
                let mut m = String::from_str("Invalid sample rate: ");
                push_decimal_nat(&mut m, *v);
                m
            },
            HcaEncoderError::InvalidChannelCount(v) => {
                let mut m = String::from_str("Invalid channel count: ");
                push_decimal_nat(&mut m, *v);
                m
            },
            HcaEncoderError::FrameTooLarge => String::from_str("Frame too large"),
            HcaEncoderError::NoSamples => String::from_str("No samples provided"),
        }
    }
}

/// HCA encoder configuration.
#[derive(Debug, Clone, Copy, PartialEq, Eq, Structural)]
pub struct HcaEncoderConfig {
    pub sample_rate: u32,
    pub channels: u32,
    pub bitrate: u32,
    pub encryption_key: Option<u64>,
    pub loop_start: Option<u32>,
    pub loop_end: Option<u32>,
}

impl Default for HcaEncoderConfig {
    /// 44100 Hz stereo at 256 kbps, unencrypted, without loop.
    fn default() -> (r: Self)
        ensures
            r.sample_rate == 44100 && r.channels == 2 && r.bitrate == 256000,
            r.encryption_key is None && r.loop_start is None && r.loop_end is None,
    {
        HcaEncoderConfig {
            sample_rate: 44100,
            channels: 2,
            bitrate: 256000,
            encryption_key: None,
            loop_start: None,
            loop_end: None,
        }
    }
}

impl HcaEncoderConfig {
    pub fn new(sample_rate: u32, channels: u32) -> (r: Self)
        ensures
            r.sample_rate == sample_rate && r.channels == channels && r.bitrate == 256000,
            r.encryption_key is None && r.loop_start is None && r.loop_end is None,
    {
        HcaEncoderConfig { sample_rate, channels, ..Default::default() }
    }

    pub fn with_bitrate(self, bitrate: u32) -> (r: Self)
        ensures
            r == (HcaEncoderConfig { bitrate, ..self }),
    {
        HcaEncoderConfig { bitrate, ..self }
    }

    pub fn with_encryption(self, key: u64) -> (r: Self)
        ensures
            r == (HcaEncoderConfig { encryption_key: Some(key), ..self }),
    {
        HcaEncoderConfig { encryption_key: Some(key), ..self }
    }

    /// The checks an encoder makes of its configuration: a sample rate in
    /// 1..=0x7FFFFF and 1 to 16 channels.
    pub fn validate(&self) -> (r: Result<(), HcaEncoderError>)
        ensures
            self.sample_rate == 0 || self.sample_rate > 0x7F_FFFF ==> r == Err::<(), HcaEncoderError>(
                HcaEncoderError::InvalidSampleRate(self.sample_rate),
            ),
            1 <= self.sample_rate <= 0x7F_FFFF && (self.channels == 0 || self.channels
                > HCA_MAX_CHANNELS) ==> r == Err::<(), HcaEncoderError>(
                HcaEncoderError::InvalidChannelCount(self.channels),
            ),
            1 <= self.sample_rate <= 0x7F_FFFF && 1 <= self.channels <= HCA_MAX_CHANNELS ==> r
                is Ok,
    {
        if self.sample_rate == 0 || self.sample_rate > 0x7F_FFFF {
            return Err(HcaEncoderError::InvalidSampleRate(self.sample_rate));
        }
        if self.channels == 0 || self.channels > HCA_MAX_CHANNELS {
            return Err(HcaEncoderError::InvalidChannelCount(self.channels));
        }
        Ok(())
    }
}

/// Frame size for a bitrate: bits per frame over eight, cut to 32 bits and
/// clamped to 0x100..=0x1000.
pub open spec fn spec_frame_size(bitrate: u32, sample_rate: u32) -> u32 {
    let size = ((bitrate as int * 1024) / (sample_rate as int * 8)) % 0x1_0000_0000;
    if size < 0x100 {
        0x100
    } else if size > 0x1000 {
        0x1000
    } else {
        size as u32
    }
}

pub fn calculate_frame_size(bitrate: u32, sample_rate: u32) -> (r: u32)
    requires
        sample_rate > 0,
    ensures
        r == spec_frame_size(bitrate, sample_rate),
        0x100 <= r <= 0x1000,
{
    let bits: u64 = bitrate as u64 * 1024;
    let size: u64 = bits / (sample_rate as u64 * 8);
    let s: u32 = (size % 0x1_0000_0000) as u32;
    if s < 0x100 {
        0x100
    } else if s > 0x1000 {
        0x1000
    } else {
        s
    }
}

/// The header chunk magic, masked (high bit of each letter set) when the
/// stream is encrypted.
pub open spec fn chunk_magic(plain: u32, masked: u32, encrypted: bool) -> u32 {
    if encrypted { masked } else { plain }
}

/// The header before its zero padding and checksum.
pub open spec fn header_body(c: HcaEncoderConfig, frame_size: u32, frame_count: u32) -> Seq<u8> {
    let enc = c.encryption_key is Some;
    be32_bytes(chunk_magic(0x4843_4100, 0xC8C3_C100, enc) as int) + be16_bytes(
        HCA_VERSION_200 as int,
    ) + be16_bytes(HCA_HEADER_SIZE as int) + be32_bytes(
        chunk_magic(0x666D_7400, 0xE6ED_7400, enc) as int,
    ) + seq![(c.channels % 0x100) as u8] + be32_bytes((c.sample_rate % 0x100_0000) as int).skip(
        1,
    ) + be32_bytes(frame_count as int) + be16_bytes(0) + be16_bytes(0) + be32_bytes(
        chunk_magic(0x636F_6D70, 0xE3EF_EDF0, enc) as int,
    ) + be16_bytes(frame_size as int % 0x1_0000) + seq![1u8, 15, 1, 1, 128, 128, 0, 0, 0, 0]
        + be32_bytes(chunk_magic(0x6174_6800, 0xE1F4_E800, enc) as int) + be16_bytes(0) + (
    if c.loop_start is Some && c.loop_end is Some {
        be32_bytes(chunk_magic(0x6C6F_6F70, 0xECEF_EFF0, enc) as int) + be32_bytes(
            c.loop_start.unwrap() as int,
        ) + be32_bytes(c.loop_end.unwrap() as int) + be16_bytes(0) + be16_bytes(0)
    } else {
        Seq::empty()
    }) + (if enc {
        be32_bytes(0xE3E9_F0E8) + be16_bytes(56)
    } else {
        Seq::empty()
    })
}

/// The whole header: body, zeros up to 0x5E bytes, then the checksum of
/// those bytes, big-endian.
pub open spec fn spec_hca_header(c: HcaEncoderConfig, frame_size: u32, frame_count: u32) -> Seq<
    u8,
> {
    let body = header_body(c, frame_size, frame_count);
    let padded = body + Seq::new((0x5E - body.len()) as nat, |i: int| 0u8);
    padded + be16_bytes(crc16(padded) as int)
}

/// The HCA header the encoder writes: "HCA", "fmt", "comp", "ath" chunks,
/// an optional "loop" chunk, a "ciph" chunk when encrypted, zero padding to
/// 0x60 bytes with a closing checksum.
pub fn hca_header(config: &HcaEncoderConfig, frame_size: u32, frame_count: u32) -> (r: Vec<u8>)
    ensures
        r@ == spec_hca_header(*config, frame_size, frame_count),
        r@.len() == HCA_HEADER_SIZE,
{
    let enc = config.encryption_key.is_some();
    let mut h: Vec<u8> = Vec::new();
    write_u32_be(&mut h, if enc { 0xC8C3_C100 } else { 0x4843_4100 });
    write_u16_be(&mut h, HCA_VERSION_200);
    write_u16_be(&mut h, HCA_HEADER_SIZE as u16);
    write_u32_be(&mut h, if enc { 0xE6ED_7400 } else { 0x666D_7400 });
    h.push((config.channels % 0x100) as u8);
    let rate = config.sample_rate % 0x100_0000;
    h.push((rate / 0x1_0000 % 0x100) as u8);
    h.push((rate / 0x100 % 0x100) as u8);
    h.push((rate % 0x100) as u8);
    write_u32_be(&mut h, frame_count);
    write_u16_be(&mut h, 0);
    write_u16_be(&mut h, 0);
    write_u32_be(&mut h, if enc { 0xE3EF_EDF0 } else { 0x636F_6D70 });
    write_u16_be(&mut h, (frame_size % 0x1_0000) as u16);
    h.push(1);
    h.push(15);
    h.push(1);
    h.push(1);
    h.push(128);
    h.push(128);
    h.push(0);
    h.push(0);
    h.push(0);
    h.push(0);
    write_u32_be(&mut h, if enc { 0xE1F4_E800 } else { 0x6174_6800 });
    write_u16_be(&mut h, 0);
    let ghost before_loop = h@;
    match (config.loop_start, config.loop_end) {
        (Some(start), Some(end)) => {
            write_u32_be(&mut h, if enc { 0xECEF_EFF0 } else { 0x6C6F_6F70 });
            write_u32_be(&mut h, start);
            write_u32_be(&mut h, end);
            write_u16_be(&mut h, 0);
            write_u16_be(&mut h, 0);
        },
        _ => {},
    }
    if enc {
        write_u32_be(&mut h, 0xE3E9_F0E8);
        write_u16_be(&mut h, 56);
    }
    proof {
        assert(h@ =~= header_body(*config, frame_size, frame_count));
    }
    let ghost body = h@;
    while h.len() < 0x5E
        invariant
            body.len() <= h@.len() <= 0x5E,
            h@ == body + Seq::new((h@.len() - body.len()) as nat, |i: int| 0u8),
        decreases 0x5E - h@.len(),
    {
        h.push(0);
        proof {
            assert(h@ =~= body + Seq::new((h@.len() - body.len()) as nat, |i: int| 0u8));
        }
    }
    let crc = crc16_checksum(h.as_slice());
    write_u16_be(&mut h, crc);
    h
}

/// The encoder's header passes the checksum test: its checksum is zero.
pub proof fn law_header_checksum(c: HcaEncoderConfig, frame_size: u32, frame_count: u32)
    ensures
        crc16(spec_hca_header(c, frame_size, frame_count)) == 0,
{
    let body = header_body(c, frame_size, frame_count);
    let padded = body + Seq::new((0x5E - body.len()) as nat, |i: int| 0u8);
    crate::hca::crc::law_crc_append_zero(padded);
}

/// The frame bytes before the checksum: the packed bits cut or zero-padded
/// to `frame_size - 2` bytes, passed through the cipher table when
/// encrypting.
pub open spec fn frame_body(bits: Seq<u8>, frame_size: int, table: Seq<u8>, encrypt: bool) -> Seq<u8> {
    let n = frame_size - 2;
    let plain = Seq::new(n as nat, |i: int| if i < bits.len() { bits[i] } else { 0u8 });
    if encrypt {
        Seq::new(n as nat, |i: int| table[plain[i] as int])
    } else {
        plain
    }
}

/// Close a frame: its body followed by the body's checksum, big-endian.
pub open spec fn spec_sealed_frame(bits: Seq<u8>, frame_size: int, table: Seq<u8>, encrypt: bool) -> Seq<u8> {
    let body = frame_body(bits, frame_size, table, encrypt);
    body + be16_bytes(crc16(body) as int)
}

/// Lay the packed bits of a frame into `frame_size` bytes: cut or pad the
/// bits to all but the last two bytes, apply the cipher when encrypting,
/// and end with the checksum.
pub fn seal_frame(bits: &[u8], frame_size: usize, cipher_table: &[u8; 256], encrypt: bool) -> (r: Vec<u8>)
    requires
        frame_size >= 2,
    ensures
        r@ == spec_sealed_frame(bits@, frame_size as int, cipher_table@, encrypt),
        r@.len() == frame_size,
{
    let n = frame_size - 2;
    let copy_len = if bits.len() < n { bits.len() } else { n };
    let mut body: Vec<u8> = Vec::new();
    let mut i: usize = 0;
    while i < n
        invariant
            n == frame_size - 2,
            copy_len <= n,
            copy_len as int == if bits@.len() < n { bits@.len() as int } else { n as int },
            i <= n,
            body@.len() == i,
            forall|j: int|
                0 <= j < i ==> body@[j] == if encrypt {
                    cipher_table@[(if j < bits@.len() { bits@[j] } else { 0u8 }) as int]
                } else {
                    if j < bits@.len() { bits@[j] } else { 0u8 }
                },
        decreases n - i,
    {
        let b: u8 = if i < copy_len { bits[i] } else { 0 };
        if encrypt {
            body.push(cipher_table[b as usize]);
        } else {
            body.push(b);
        }
        i = i + 1;
    }
    proof {
        assert(body@ =~= frame_body(bits@, frame_size as int, cipher_table@, encrypt));
    }
    let checksum = crc16_checksum(body.as_slice());
    write_u16_be(&mut body, checksum);
    body
}

/// A sealed frame passes the checksum test.
pub proof fn law_frame_checksum(bits: Seq<u8>, frame_size: int, table: Seq<u8>, encrypt: bool)
    requires
        frame_size >= 2,
    ensures
        crc16(spec_sealed_frame(bits, frame_size, table, encrypt)) == 0,
{
    crate::hca::crc::law_crc_append_zero(frame_body(bits, frame_size, table, encrypt));
}

/// Format of a WAV input, as far as the encoder reads it.
#[derive(Debug, Clone, Copy, PartialEq, Eq, Structural)]
pub struct WavFormat {
    pub channels: u32,
    pub sample_rate: u32,
    pub bits_per_sample: u32,
    pub data_start: usize,
    pub data_len: usize,
}

/// The four bytes at `pos` spell the chunk id.
pub open spec fn chunk_is(d: Seq<u8>, pos: int, id: Seq<u8>) -> bool {
    d[pos] == id[0] && d[pos + 1] == id[1] && d[pos + 2] == id[2] && d[pos + 3] == id[3]
}

pub open spec fn fmt_id() -> Seq<u8> {
    seq![0x66u8, 0x6D, 0x74, 0x20]
}

pub open spec fn data_id() -> Seq<u8> {
    seq![0x64u8, 0x61, 0x74, 0x61]
}

/// Bytes left after `pos`, zero past the end.
pub open spec fn left(d: Seq<u8>, pos: int) -> int {
    if d.len() >= pos { d.len() - pos } else { 0 }
}

/// Where the chunk after the one at `pos` of the given size starts: past
/// its header and body, and past one more byte after an odd body when
/// bodies are padded.
pub open spec fn next_chunk(pos: int, size: int, pad: bool) -> int {
    pos + 8 + size + if pad && size % 2 == 1 { 1int } else { 0int }
}

/// Walk the chunks from `pos`: a "fmt " chunk of at least 16 bytes updates
/// channels, rate and bits; the first "data" chunk ends the walk with its
/// start and size; running out of chunks gives start 0 and size 0.
pub open spec fn wav_walk(d: Seq<u8>, pos: int, ch: u32, rate: u32, bits: u32, pad: bool) -> WavFormat
    decreases left(d, pos),
{
    if pos < 0 || pos + 8 > d.len() {
        WavFormat { channels: ch, sample_rate: rate, bits_per_sample: bits, data_start: 0, data_len: 0 }
    } else {
        let size = le32(d.skip(pos + 4));
        if chunk_is(d, pos, fmt_id()) && size >= 16 {
            wav_walk(d, next_chunk(pos, size, pad), le16(d.skip(pos + 10)) as u32, le32(d.skip(pos + 12)) as u32, le16(d.skip(pos + 22)) as u32, pad)
        } else if chunk_is(d, pos, data_id()) {
            WavFormat { channels: ch, sample_rate: rate, bits_per_sample: bits, data_start: (pos + 8) as usize, data_len: size as usize }
        } else {
            wav_walk(d, next_chunk(pos, size, pad), ch, rate, bits, pad)
        }
    }
}

/// Every "fmt " chunk the walk reads holds its 24 bytes in the data.
pub open spec fn wav_fmt_in_bounds(d: Seq<u8>, pos: int, pad: bool) -> bool
    decreases left(d, pos),
{
    if pos < 0 || pos + 8 > d.len() {
        true
    } else {
        let size = le32(d.skip(pos + 4));
        if chunk_is(d, pos, fmt_id()) && size >= 16 {
            pos + 24 <= d.len() && wav_fmt_in_bounds(d, next_chunk(pos, size, pad), pad)
        } else if chunk_is(d, pos, data_id()) {
            true
        } else {
            wav_fmt_in_bounds(d, next_chunk(pos, size, pad), pad)
        }
    }
}

/// "RIFF" at 0 and "WAVE" at 8 in at least 44 bytes.
pub open spec fn is_riff_wave(d: Seq<u8>) -> bool {
    d.len() >= 44 && d[0] == 0x52 && d[1] == 0x49 && d[2] == 0x46 && d[3] == 0x46 && d[8] == 0x57
        && d[9] == 0x41 && d[10] == 0x56 && d[11] == 0x45
}

/// What reading a WAV input gives: its format and the place of its samples,
/// or `NoSamples` when it is not a RIFF/WAVE file or has no nonempty data
/// chunk. Without a "fmt " chunk the format is 2 channels, 44100 Hz, 16 bits.
pub open spec fn spec_parse_wav(d: Seq<u8>) -> Result<WavFormat, HcaEncoderError> {
    if !is_riff_wave(d) {
        Err(HcaEncoderError::NoSamples)
    } else {
        let f = wav_walk(d, 12, 2, 44100, 16, false);
        if f.data_start == 0 || f.data_len == 0 {
            Err(HcaEncoderError::NoSamples)
        } else {
            Ok(f)
        }
    }
}

/// Walk the chunks of a RIFF/WAVE input from byte 12.
fn walk_wav_chunks(wav_data: &[u8], pad: bool) -> (r: WavFormat)
    requires
        wav_fmt_in_bounds(wav_data@, 12, pad),
    ensures
        r == wav_walk(wav_data@, 12, 2, 44100, 16, pad),
{
    let d = wav_data;
    let len = d.len();
    let mut pos: u64 = 12;
    let mut channels: u32 = 2;
    let mut sample_rate: u32 = 44100;
    let mut bits_per_sample: u32 = 16;
    let mut data_start: usize = 0;
    let mut data_len: usize = 0;
    let ghost total = wav_walk(d@, 12, 2, 44100, 16, pad);
    if (len as u64) < 12 {
        return WavFormat { channels, sample_rate, bits_per_sample, data_start, data_len };
    }
    while len as u64 >= 8 && pos <= len as u64 - 8
        invariant_except_break
            len == d@.len(),
            pos <= len,
            wav_walk(d@, pos as int, channels, sample_rate, bits_per_sample, pad) == total,
            wav_fmt_in_bounds(d@, pos as int, pad),
            data_start == 0,
            data_len == 0,
        ensures
            total.data_start == data_start,
            total.data_len == data_len,
            total.channels == channels,
            total.sample_rate == sample_rate,
            total.bits_per_sample == bits_per_sample,
        decreases left(d@, pos as int),
    {
        let p = pos as usize;
        let ghost old_ch = channels;
        let ghost old_rate = sample_rate;
        let ghost old_bits = bits_per_sample;
        proof {
            assert(fmt_id()[0] == 0x66 && fmt_id()[1] == 0x6D && fmt_id()[2] == 0x74 && fmt_id()[3] == 0x20);
            assert(data_id()[0] == 0x64 && data_id()[1] == 0x61 && data_id()[2] == 0x74 && data_id()[3] == 0x61);
        }
        let size: u32 = d[p + 4] as u32 + d[p + 5] as u32 * 0x100 + d[p + 6] as u32 * 0x1_0000
            + d[p + 7] as u32 * 0x100_0000;
        proof {
            assert(size == le32(d@.skip(p + 4)));
        }
        if d[p] == 0x66 && d[p + 1] == 0x6D && d[p + 2] == 0x74 && d[p + 3] == 0x20 && size >= 16 {
            channels = d[p + 10] as u32 + d[p + 11] as u32 * 0x100;
            sample_rate = d[p + 12] as u32 + d[p + 13] as u32 * 0x100 + d[p + 14] as u32 * 0x1_0000
                + d[p + 15] as u32 * 0x100_0000;
            bits_per_sample = d[p + 22] as u32 + d[p + 23] as u32 * 0x100;
            proof {
                assert(channels == le16(d@.skip(p + 10)));
                assert(sample_rate == le32(d@.skip(p + 12)));
                assert(bits_per_sample == le16(d@.skip(p + 22)));
            }
        } else if d[p] == 0x64 && d[p + 1] == 0x61 && d[p + 2] == 0x74 && d[p + 3] == 0x61 {
            data_start = p + 8;
            data_len = size as usize;
            break;
        }
        let rest: u64 = len as u64 - pos - 8;
        let step: u64 = if pad && size % 2 == 1 { size as u64 + 1 } else { size as u64 };
        let ghost next = next_chunk(pos as int, size as int, pad);
        proof {
            assert(next == pos + 8 + step);
            assert(wav_walk(d@, p as int, old_ch, old_rate, old_bits, pad) == wav_walk(d@, next, channels, sample_rate, bits_per_sample, pad));
            assert(wav_fmt_in_bounds(d@, next, pad));
        }
        if step > rest {
            pos = len as u64;
        } else {
            pos = pos + 8 + step;
        }
    }
    WavFormat { channels, sample_rate, bits_per_sample, data_start, data_len }
}

/// Read the format and the place of the samples of a WAV input.
pub fn parse_wav(wav_data: &[u8]) -> (r: Result<WavFormat, HcaEncoderError>)
    requires
        is_riff_wave(wav_data@) ==> wav_fmt_in_bounds(wav_data@, 12, false),
    ensures
        r == spec_parse_wav(wav_data@),
{
    if !riff_wave(wav_data) {
        return Err(HcaEncoderError::NoSamples);
    }
    let f = walk_wav_chunks(wav_data, false);
    if f.data_start == 0 || f.data_len == 0 {
        return Err(HcaEncoderError::NoSamples);
    }
    Ok(f)
}

fn riff_wave(d: &[u8]) -> (r: bool)
    ensures
        r == is_riff_wave(d@),
{
    d.len() >= 44 && d[0] == 0x52 && d[1] == 0x49 && d[2] == 0x46 && d[3] == 0x46 && d[8] == 0x57
        && d[9] == 0x41 && d[10] == 0x56 && d[11] == 0x45
}

/// The cipher table an encoder masks its frames with: the identity without
/// a key; with one, the type-56 table of that key (the identity again for
/// key 0).
pub fn encoder_cipher_table(encryption_key: Option<u64>) -> (r: [u8; 256])
    ensures
        match encryption_key {
            Some(k) if k != 0 => {
                &&& r@[0] == 0
                &&& r@[255] == 255
                &&& table56(adjusted_key(k)).len() == 254
                &&& forall|i: int| 1 <= i <= 254 ==> r@[i] == table56(adjusted_key(k))[i - 1]
            },
            _ => forall|i: int| 0 <= i < 256 ==> r@[i] == i,
        },
{
    let mut table = [0u8; 256];
    match encryption_key {
        Some(key) => cipher_init(&mut table, 56, key),
        None => cipher_init(&mut table, 0, 0),
    }
    table
}

/// Spectral bins per subframe.
pub const HCA_SAMPLES_PER_SUBFRAME: usize = 128;

/// The first `n` scale factors are all zero.
pub open spec fn all_zero(sf: Seq<u8>, n: int) -> bool {
    forall|i: int| 0 <= i < n ==> sf[i] == 0
}

/// How many bits the scale factors of a channel take: a 3-bit delta width,
/// then, unless there are none or all are zero, six bits for each.
pub open spec fn scale_factor_width(sf: Seq<u8>, n: int) -> int {
    if n == 0 || all_zero(sf, n) { 3 } else { 3 + 6 * n }
}

/// Bit `k` of the scale factor field: the delta width 0 when there are no
/// factors or all are zero, else the width 6 and each factor in six bits.
pub open spec fn scale_factor_bit(sf: Seq<u8>, n: int, k: int) -> int {
    if n == 0 || all_zero(sf, n) {
        value_bit(0, 3, k)
    } else if k < 3 {
        value_bit(6, 3, k)
    } else {
        value_bit(sf[(k - 3) / 6] as u32, 6, (k - 3) % 6)
    }
}

/// A writer whose bits from `start` on, for `width` bits, follow `f`, all
/// others being unchanged from `old`.
pub open spec fn written_from(
    old: Seq<u8>,
    new: Seq<u8>,
    start: int,
    width: int,
    f: spec_fn(int) -> int,
) -> bool {
    &&& new.len() == old.len()
    &&& forall|p: int|
        #![trigger bit_at(new, p)]
        0 <= p ==> bit_at(new, p) == if start <= p < start + width && p / 8 < old.len() {
            f(p - start)
        } else {
            bit_at(old, p)
        }
}

proof fn lemma_factor_slot(k: int, i: int)
    requires
        0 <= i,
        3 + 6 * i <= k < 3 + 6 * i + 6,
    ensures
        (k - 3) / 6 == i,
        (k - 3) % 6 == k - (3 + 6 * i),
{
    assert((k - 3) / 6 == i && (k - 3) % 6 == k - 3 - 6 * i) by (nonlinear_arith)
        requires
            0 <= i,
            6 * i <= k - 3 < 6 * i + 6,
    ;
}

/// Write the scale factors of a channel's first `coded_count` bins: a zero
/// delta width when there are none or all are zero, else the width 6 and
/// each factor in six bits.
pub fn encode_scale_factors(writer: &mut BitWriter, scale_factors: &[u8; 128], coded_count: usize)
    requires
        coded_count <= 128,
        old(writer).pos() + 3 + 6 * 128 <= usize::MAX,
    ensures
        final(writer).pos() == old(writer).pos() + scale_factor_width(scale_factors@, coded_count as int),
        written_from(old(writer).bytes(), final(writer).bytes(), old(writer).pos(),
            scale_factor_width(scale_factors@, coded_count as int),
            |k: int| scale_factor_bit(scale_factors@, coded_count as int, k)),
{
    let ghost sf = scale_factors@;
    let ghost n = coded_count as int;
    let ghost d0 = writer.bytes();
    let ghost p0 = writer.pos();
    let mut all_zero_so_far = true;
    let mut j: usize = 0;
    while j < coded_count
        invariant
            j <= coded_count <= 128,
            sf == scale_factors@,
            all_zero_so_far == all_zero(sf, j as int),
        decreases coded_count - j,
    {
        if scale_factors[j] != 0 {
            all_zero_so_far = false;
        }
        j = j + 1;
    }
    if coded_count == 0 || all_zero_so_far {
        writer.write(0, 3);
        return;
    }
    writer.write(6, 3);
    let mut i: usize = 0;
    while i < coded_count
        invariant
            i <= coded_count <= 128,
            sf == scale_factors@,
            n == coded_count,
            n > 0 && !all_zero(sf, n),
            p0 == old(writer).pos(),
            d0 == old(writer).bytes(),
            p0 + 3 + 6 * 128 <= usize::MAX,
            writer.pos() == p0 + 3 + 6 * i,
            written_from(d0, writer.bytes(), p0, 3 + 6 * i,
                |k: int| scale_factor_bit(sf, n, k)),
        decreases coded_count - i,
    {
        let ghost before = writer.bytes();
        let ghost at = writer.pos();
        writer.write(scale_factors[i] as u32, 6);
        proof {
            assert forall|p: int| #![trigger bit_at(writer.bytes(), p)] 0 <= p implies bit_at(
                writer.bytes(), p) == if p0 <= p < p0 + 3 + 6 * (i + 1) && p / 8 < d0.len() {
                scale_factor_bit(sf, n, p - p0)
            } else {
                bit_at(d0, p)
            } by {
                if at <= p < at + 6 && p / 8 < d0.len() {
                    lemma_factor_slot(p - p0, i as int);
                }
            }
        }
        i = i + 1;
    }
}

/// Why a WAV input given as bytes could not be read for encoding.
#[derive(Debug, Clone, Copy, PartialEq, Eq, Structural)]
pub enum WavBytesError {
    /// Not a RIFF/WAVE file of at least 44 bytes.
    InvalidWav,
    /// No nonempty data chunk.
    NoDataChunk,
    /// Samples of a width other than 16, 24 or 32 bits.
    UnsupportedBitDepth(u32),
}

/// What reading WAV bytes for encoding gives: the format, with chunks
/// padded to an even size, or the reason it cannot be encoded.
pub open spec fn spec_parse_wav_bytes(d: Seq<u8>) -> Result<WavFormat, WavBytesError> {
    if !is_riff_wave(d) {
        Err(WavBytesError::InvalidWav)
    } else {
        let f = wav_walk(d, 12, 2, 44100, 16, true);
        if f.data_start == 0 || f.data_len == 0 {
            Err(WavBytesError::NoDataChunk)
        } else if f.bits_per_sample != 16 && f.bits_per_sample != 24 && f.bits_per_sample != 32 {
            Err(WavBytesError::UnsupportedBitDepth(f.bits_per_sample))
        } else {
            Ok(f)
        }
    }
}

/// Read the format and the place of the samples of WAV bytes, where chunk
/// bodies of odd size are followed by a pad byte.
pub fn parse_wav_bytes(wav_data: &[u8]) -> (r: Result<WavFormat, WavBytesError>)
    requires
        is_riff_wave(wav_data@) ==> wav_fmt_in_bounds(wav_data@, 12, true),
    ensures
        r == spec_parse_wav_bytes(wav_data@),
{
    if !riff_wave(wav_data) {
        return Err(WavBytesError::InvalidWav);
    }
    let f = walk_wav_chunks(wav_data, true);
    if f.data_start == 0 || f.data_len == 0 {
        return Err(WavBytesError::NoDataChunk);
    }
    if f.bits_per_sample != 16 && f.bits_per_sample != 24 && f.bits_per_sample != 32 {
        return Err(WavBytesError::UnsupportedBitDepth(f.bits_per_sample));
    }
    Ok(f)
}

/// A WAV header written for a decoded stream, followed by any samples,
/// reads back as the format it records: its channels and rate, 16 bits,
/// samples from byte 44 on, as many bytes as it announces. (Where the
/// channel count or the data size does not fit its field, the header cuts
/// it, and it reads back cut.)
#[verifier::rlimit(40)]
pub proof fn law_wav_header_reads_back(info: HcaInfo, pcm: Seq<u8>)
    requires
        wav_header_fits(info),
        wav_data_size(info) > 0,
        wav_data_size(info) + 36 <= u32::MAX,
        info.channel_count <= u16::MAX,
    ensures
        is_riff_wave(spec_wav_header(info) + pcm) ==> wav_fmt_in_bounds(spec_wav_header(info) + pcm, 12, false),
        is_riff_wave(spec_wav_header(info) + pcm) ==> wav_fmt_in_bounds(spec_wav_header(info) + pcm, 12, true),
        spec_parse_wav_bytes(spec_wav_header(info) + pcm) == Ok::<WavFormat, WavBytesError>(
            WavFormat {
                channels: info.channel_count,
                sample_rate: info.sampling_rate,
                bits_per_sample: 16,
                data_start: 44,
                data_len: wav_data_size(info) as usize,
            },
        ),
        spec_parse_wav(spec_wav_header(info) + pcm) == Ok::<WavFormat, HcaEncoderError>(
            WavFormat {
                channels: info.channel_count,
                sample_rate: info.sampling_rate,
                bits_per_sample: 16,
                data_start: 44,
                data_len: wav_data_size(info) as usize,
            },
        ),
{
    let h = spec_wav_header(info);
    let d = h + pcm;
    let size = wav_data_size(info);
    assert(h.len() == 44);
    assert(forall|i: int| 0 <= i < 44 ==> d[i] == h[i]);
    assert(d[0] == 0x52 && d[1] == 0x49 && d[2] == 0x46 && d[3] == 0x46);
    assert(d[8] == 0x57 && d[9] == 0x41 && d[10] == 0x56 && d[11] == 0x45);
    assert(is_riff_wave(d));
    lemma_le32_roundtrip(16);
    lemma_le16_roundtrip(info.channel_count as u16);
    lemma_le32_roundtrip(info.sampling_rate);
    lemma_le16_roundtrip(16);
    lemma_le32_roundtrip(size as u32);
    assert(fmt_id() =~= seq![0x66u8, 0x6D, 0x74, 0x20]);
    assert(data_id() =~= seq![0x64u8, 0x61, 0x74, 0x61]);
    assert(chunk_is(d, 12, fmt_id()));
    assert(d.skip(16).subrange(0, 4) =~= le32_bytes(16));
    assert(le32(d.skip(16)) == 16);
    assert(d.skip(22).subrange(0, 2) =~= le16_bytes(info.channel_count as int));
    assert(le16(d.skip(22)) == info.channel_count);
    assert(d.skip(24).subrange(0, 4) =~= le32_bytes(info.sampling_rate as int));
    assert(le32(d.skip(24)) == info.sampling_rate);
    assert(d.skip(34).subrange(0, 2) =~= le16_bytes(16));
    assert(le16(d.skip(34)) == 16);
    assert(chunk_is(d, 36, data_id()));
    assert(d.skip(40).subrange(0, 4) =~= le32_bytes(size));
    assert(le32(d.skip(40)) == size);
    assert(wav_walk(d, 36, info.channel_count, info.sampling_rate, 16, false) == WavFormat {
        channels: info.channel_count,
        sample_rate: info.sampling_rate,
        bits_per_sample: 16,
        data_start: 44,
        data_len: size as usize,
    });
    assert(wav_fmt_in_bounds(d, 36, false));
    assert(wav_fmt_in_bounds(d, 36, true));
    assert(wav_walk(d, 36, info.channel_count, info.sampling_rate, 16, true) == WavFormat {
        channels: info.channel_count,
        sample_rate: info.sampling_rate,
        bits_per_sample: 16,
        data_start: 44,
        data_len: size as usize,
    });
    assert(spec_parse_wav_bytes(d) == Ok::<WavFormat, WavBytesError>(WavFormat {
        channels: info.channel_count,
        sample_rate: info.sampling_rate,
        bits_per_sample: 16,
        data_start: 44,
        data_len: size as usize,
    }));
}

/// Where an encoder's header places its "ciph" chunk: right after the "ath"
/// chunk, or after the "loop" chunk when the stream loops.
pub open spec fn ciph_position(c: HcaEncoderConfig) -> int {
    if c.loop_start is Some && c.loop_end is Some {
        0x3E
    } else {
        0x2E
    }
}

/// An encrypted stream's header declares cipher type 56, the type of the
/// table the encoder encrypts its frames with (`encoder_cipher_table`, the
/// type-56 table of the key): at the "ciph" chunk's place stand its masked
/// letters E3 E9 F0 E8 and then 56, big-endian, and the header stays 0x60
/// bytes. An unencrypted header has only zero padding there.
pub proof fn law_header_declares_frame_cipher(c: HcaEncoderConfig, frame_size: u32, frame_count: u32)
    ensures
        ({
            let h = spec_hca_header(c, frame_size, frame_count);
            let p = ciph_position(c);
            &&& h.len() == 0x60
            &&& c.encryption_key is Some ==> be32(h.skip(p)) == 0xE3E9_F0E8 && be16(h.skip(p + 4))
                == 56
            &&& c.encryption_key is None ==> forall|i: int| p <= i < p + 6 ==> h[i] == 0
        }),
{
    let b = header_body(c, frame_size, frame_count);
    let p = ciph_position(c);
    let padded = b + Seq::new((0x5E - b.len()) as nat, |i: int| 0u8);
    let h = spec_hca_header(c, frame_size, frame_count);
    assert(h == padded + be16_bytes(crc16(padded) as int));
    if c.encryption_key is Some {
        assert(b.len() == p + 6);
        let tail = be32_bytes(0xE3E9_F0E8) + be16_bytes(56);
        assert(b.subrange(p, p + 6) =~= tail);
        assert(h.subrange(p, p + 6) =~= b.subrange(p, p + 6));
        assert(h.skip(p).subrange(0, 4) =~= be32_bytes(0xE3E9_F0E8));
        assert(h.skip(p + 4).subrange(0, 2) =~= be16_bytes(56));
        crate::reader::law_be32_reads_back(0xE3E9_F0E8);
        crate::reader::law_be16_reads_back(56);
        assert(be32(h.skip(p)) == be32(be32_bytes(0xE3E9_F0E8)));
        assert(be16(h.skip(p + 4)) == be16(be16_bytes(56)));
    } else {
        assert(b.len() == p);
        assert forall|i: int| p <= i < p + 6 implies h[i] == 0 by {
            assert(h[i] == padded[i]);
        }
    }
}

/// The fields of an encoder's header, as a reader takes them: the "HCA",
/// "fmt ", "comp" and "ath" chunk letters (masked when encrypted) at bytes
/// 0, 8, 24 and 40; version 2.0 and header size 0x60; the channel count,
/// the 24-bit sampling rate and the frame count; zero delay and padding;
/// the frame size; resolution 1 to 15, one track, channel layout 1, 128
/// total and base bands; ath type 0; and, for a looping stream, the "loop"
/// chunk at byte 46 with the loop's start and end frames.
#[verifier::rlimit(60)]
pub proof fn law_header_fields(c: HcaEncoderConfig, frame_size: u32, frame_count: u32)
    ensures
        ({
            let h = spec_hca_header(c, frame_size, frame_count);
            let enc = c.encryption_key is Some;
            &&& be32(h) == (if enc { 0xC8C3_C100int } else { 0x4843_4100int })
            &&& be16(h.skip(4)) == 0x0200
            &&& be16(h.skip(6)) == 0x60
            &&& be32(h.skip(8)) == (if enc { 0xE6ED_7400int } else { 0x666D_7400int })
            &&& h[12] == c.channels % 0x100
            &&& h[13] * 0x1_0000 + h[14] * 0x100 + h[15] == c.sample_rate % 0x100_0000
            &&& be32(h.skip(16)) == frame_count
            &&& be16(h.skip(20)) == 0 && be16(h.skip(22)) == 0
            &&& be32(h.skip(24)) == (if enc { 0xE3EF_EDF0int } else { 0x636F_6D70int })
            &&& be16(h.skip(28)) == frame_size % 0x1_0000
            &&& h.subrange(30, 40) == seq![1u8, 15, 1, 1, 128, 128, 0, 0, 0, 0]
            &&& be32(h.skip(40)) == (if enc { 0xE1F4_E800int } else { 0x6174_6800int })
            &&& be16(h.skip(44)) == 0
            &&& c.loop_start is Some && c.loop_end is Some ==> {
                &&& be32(h.skip(46)) == (if enc { 0xECEF_EFF0int } else { 0x6C6F_6F70int })
                &&& be32(h.skip(50)) == c.loop_start.unwrap()
                &&& be32(h.skip(54)) == c.loop_end.unwrap()
            }
        }),
{
    let b = header_body(c, frame_size, frame_count);
    let padded = b + Seq::new((0x5E - b.len()) as nat, |i: int| 0u8);
    let h = spec_hca_header(c, frame_size, frame_count);
    let enc = c.encryption_key is Some;
    assert(h == padded + be16_bytes(crc16(padded) as int));
    assert(b.len() >= 46);
    assert forall|i: int| 0 <= i < b.len() implies h[i] == b[i] by {
        assert(h[i] == padded[i]);
    }
    let m0: u32 = if enc { 0xC8C3_C100 } else { 0x4843_4100 };
    let m1: u32 = if enc { 0xE6ED_7400 } else { 0x666D_7400 };
    let m2: u32 = if enc { 0xE3EF_EDF0 } else { 0x636F_6D70 };
    let m3: u32 = if enc { 0xE1F4_E800 } else { 0x6174_6800 };
    assert(h.subrange(0, 4) =~= be32_bytes(m0 as int));
    assert(h.subrange(4, 6) =~= be16_bytes(0x0200));
    assert(h.subrange(6, 8) =~= be16_bytes(0x60));
    assert(h.subrange(8, 12) =~= be32_bytes(m1 as int));
    assert(h.subrange(16, 20) =~= be32_bytes(frame_count as int));
    assert(h.subrange(20, 22) =~= be16_bytes(0));
    assert(h.subrange(22, 24) =~= be16_bytes(0));
    assert(h.subrange(24, 28) =~= be32_bytes(m2 as int));
    assert(h.subrange(28, 30) =~= be16_bytes(frame_size as int % 0x1_0000));
    assert(h.subrange(30, 40) =~= seq![1u8, 15, 1, 1, 128, 128, 0, 0, 0, 0]);
    assert(h.subrange(40, 44) =~= be32_bytes(m3 as int));
    assert(h.subrange(44, 46) =~= be16_bytes(0));
    assert(h.subrange(0, 4) == h.skip(0).subrange(0, 4));
    assert(h.skip(0) =~= h);
    crate::acb::layout::lemma_be32_at(h, 0, m0 as int);
    crate::acb::layout::lemma_be16_at(h, 4, 0x0200);
    crate::acb::layout::lemma_be16_at(h, 6, 0x60);
    crate::acb::layout::lemma_be32_at(h, 8, m1 as int);
    crate::acb::layout::lemma_be32_at(h, 16, frame_count as int);
    crate::acb::layout::lemma_be16_at(h, 20, 0);
    crate::acb::layout::lemma_be16_at(h, 22, 0);
    crate::acb::layout::lemma_be32_at(h, 24, m2 as int);
    crate::acb::layout::lemma_be16_at(h, 28, frame_size as int % 0x1_0000);
    crate::acb::layout::lemma_be32_at(h, 40, m3 as int);
    crate::acb::layout::lemma_be16_at(h, 44, 0);
    let r = c.sample_rate % 0x100_0000;
    assert(r == (r / 0x100_0000 % 0x100) * 0x100_0000 + (r / 0x1_0000 % 0x100) * 0x1_0000 + (r
        / 0x100 % 0x100) * 0x100 + r % 0x100 && r / 0x100_0000 % 0x100 == 0) by (nonlinear_arith)
        requires
            0 <= r < 0x100_0000,
    ;
    if c.loop_start is Some && c.loop_end is Some {
        let m4: u32 = if enc { 0xECEF_EFF0 } else { 0x6C6F_6F70 };
        assert(b.len() >= 62);
        assert(h.subrange(46, 50) =~= be32_bytes(m4 as int));
        assert(h.subrange(50, 54) =~= be32_bytes(c.loop_start.unwrap() as int));
        assert(h.subrange(54, 58) =~= be32_bytes(c.loop_end.unwrap() as int));
        crate::acb::layout::lemma_be32_at(h, 46, m4 as int);
        crate::acb::layout::lemma_be32_at(h, 50, c.loop_start.unwrap() as int);
        crate::acb::layout::lemma_be32_at(h, 54, c.loop_end.unwrap() as int);
    }
}

} // verus!
