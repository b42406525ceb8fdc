//! Stream-level HCA logic: stream information, decryption keys, seeking,
//! the WAV header of a decoded stream and key-test scoring.

use crate::acb::builder::{write_u16_le, write_u32_le};
use crate::reader::{
    io_text, le16, le16_bytes, le32, le32_bytes, lemma_le16_roundtrip, lemma_le32_roundtrip, IoError,
};
use vstd::prelude::*;

verus! {

/// Frames scored with a weight of one.
pub const HCA_KEY_SCORE_SCALE: i32 = 10;
/// Blank frames skipped before scoring.
pub const HCA_KEY_MAX_SKIP_BLANKS: i32 = 1200;
/// Frames needed before a perfect score is reported.
pub const HCA_KEY_MIN_TEST_FRAMES: i32 = 3;
/// Frames scored at most.
pub const HCA_KEY_MAX_TEST_FRAMES: i32 = 7;
/// Highest acceptable score of one frame.
pub const HCA_KEY_MAX_FRAME_SCORE: i32 = 600;
/// Total score at which testing stops.
pub const HCA_KEY_MAX_TOTAL_SCORE: i32 = 3500;

/// Information about an HCA stream, from its header.
#[derive(Debug, Clone, Copy, PartialEq, Eq, Structural)]
pub struct HcaInfo {
    pub sampling_rate: u32,
    pub channel_count: u32,
    pub block_count: u32,
    pub block_size: u32,
    pub samples_per_block: usize,
    pub encoder_delay: u32,
    pub header_size: u32,
}

/// State of a decryption key search.
#[derive(Debug, Clone, Copy, PartialEq, Eq, Structural)]
pub struct KeyTest {
    pub key: u64,
    pub subkey: u64,
    pub start_offset: u32,
    pub best_score: i32,
    pub best_key: u64,
}

impl Default for KeyTest {
    fn default() -> (r: Self)
        ensures
            r.key == 0 && r.subkey == 0 && r.start_offset == 0 && r.best_score == 0 && r.best_key
                == 0,
    {
        KeyTest { key: 0, subkey: 0, start_offset: 0, best_score: 0, best_key: 0 }
    }
}

/// The key search after the current key scored `score`: a negative score
/// (wrong key) changes nothing; otherwise the score becomes the best, with
/// the current key, when there is no positive best yet or when it is
/// positive and lower than the best.
pub open spec fn spec_record_score(kt: KeyTest, score: i32) -> KeyTest {
    if score >= 0 && (kt.best_score <= 0 || (score < kt.best_score && score > 0)) {
        KeyTest { best_score: score, best_key: kt.key, ..kt }
    } else {
        kt
    }
}

impl KeyTest {
    /// Take in the score of the current key.
    pub fn record_score(&mut self, score: i32)
        ensures
            *final(self) == spec_record_score(*old(self), score),
    {
        if score < 0 {
            return;
        }
        if self.best_score <= 0 || (score < self.best_score && score > 0) {
            self.best_score = score;
            self.best_key = self.key;
        }
    }
}

/// Once a key has scored positive, the best score stays positive and
/// never rises, whatever is recorded next.
pub proof fn law_best_score_never_rises(kt: KeyTest, score: i32)
    requires
        kt.best_score > 0,
    ensures
        0 < spec_record_score(kt, score).best_score <= kt.best_score,
{
}

/// Weight of one frame's score: 1 stays 1, a blank frame (0) counts as
/// three unit frames, other scores are scaled by ten.
pub open spec fn spec_scale_frame_score(score: int) -> int {
    if score == 1 {
        1
    } else if score == 0 {
        3 * HCA_KEY_SCORE_SCALE
    } else {
        score * HCA_KEY_SCORE_SCALE
    }
}

pub fn scale_frame_score(score: i32) -> (r: i32)
    requires
        i32::MIN <= score * 10 <= i32::MAX,
    ensures
        r == spec_scale_frame_score(score as int),
{
    if score == 1 {
        1
    } else if score == 0 {
        3 * HCA_KEY_SCORE_SCALE
    } else {
        score * HCA_KEY_SCORE_SCALE
    }
}

/// A small positive total over enough frames is reported as the best
/// possible score, 1.
pub open spec fn spec_finalize_score(total_score: int, test_frames: int) -> int {
    if test_frames > HCA_KEY_MIN_TEST_FRAMES && total_score > 0 && total_score <= test_frames {
        1
    } else {
        total_score
    }
}

pub fn finalize_score(total_score: i32, test_frames: i32) -> (r: i32)
    ensures
        r == spec_finalize_score(total_score as int, test_frames as int),
{
    if test_frames > HCA_KEY_MIN_TEST_FRAMES && total_score > 0 && total_score <= test_frames {
        return 1;
    }
    total_score
}

/// Progress of scoring one key over the frames of a stream: frames scored
/// and looked at, blank frames skipped, the running score, where the next
/// frame starts, and whether the scan has ended.
#[derive(Debug, Clone, Copy, PartialEq, Eq, Structural)]
pub struct KeyScan {
    pub test_frames: i32,
    pub current_frame: u32,
    pub blank_frames: i32,
    pub total_score: i32,
    pub offset: u32,
    pub finished: bool,
}

/// What testing one frame with the key gave: the frame could not be read,
/// or the block decoder's score for it (negative when it rejected it).
#[derive(Debug, Clone, Copy, PartialEq, Eq, Structural)]
pub enum FrameRead {
    Unreadable,
    Scored(i32),
}

/// The bounds a scan keeps.
pub open spec fn scan_wf(s: KeyScan) -> bool {
    &&& 0 <= s.test_frames <= HCA_KEY_MAX_TEST_FRAMES
    &&& 0 <= s.blank_frames <= HCA_KEY_MAX_SKIP_BLANKS
    &&& -1 <= s.total_score <= HCA_KEY_MAX_TOTAL_SCORE + HCA_KEY_MAX_FRAME_SCORE * HCA_KEY_SCORE_SCALE
    &&& !s.finished ==> 0 <= s.total_score <= HCA_KEY_MAX_TOTAL_SCORE
}

/// A scan after one frame, with the start offset of the key search: an
/// unreadable frame ends the scan; the first frame with a nonzero score
/// becomes the start offset when there is none; a score outside 0..=600
/// ends the scan as a wrong key (total -1); a zero score is skipped as
/// blank while fewer than 1200 were; any other is scaled and added, and a
/// total over 3500 ends the scan.
pub open spec fn spec_scan_step(s: KeyScan, start_offset: u32, read: FrameRead, block_size: u32) -> (
    KeyScan,
    u32,
) {
    match read {
        FrameRead::Unreadable => (KeyScan { finished: true, ..s }, start_offset),
        FrameRead::Scored(score) => {
            let so = if start_offset == 0 && score != 0 { s.offset } else { start_offset };
            let next = (s.offset + block_size) as u32;
            if score < 0 || score > HCA_KEY_MAX_FRAME_SCORE {
                (KeyScan { total_score: -1i32, offset: next, finished: true, ..s }, so)
            } else {
                let cf = (s.current_frame + 1) as u32;
                if score == 0 && s.blank_frames < HCA_KEY_MAX_SKIP_BLANKS {
                    (KeyScan { current_frame: cf, blank_frames: (s.blank_frames + 1) as i32, offset: next, ..s }, so)
                } else {
                    let total = s.total_score + spec_scale_frame_score(score as int);
                    (
                        KeyScan {
                            test_frames: (s.test_frames + 1) as i32,
                            current_frame: cf,
                            total_score: total as i32,
                            offset: next,
                            finished: total > HCA_KEY_MAX_TOTAL_SCORE,
                            ..s
                        },
                        so,
                    )
                }
            }
        },
    }
}

impl KeyScan {
    /// A scan of a key starting at the search's start offset, or right
    /// after the header when the search has none yet.
    pub fn start(kt: &KeyTest, header_size: u32) -> (r: KeyScan)
        ensures
            scan_wf(r),
            r == (KeyScan {
                test_frames: 0,
                current_frame: 0,
                blank_frames: 0,
                total_score: 0,
                offset: if kt.start_offset == 0 { header_size } else { kt.start_offset },
                finished: false,
            }),
    {
        let offset = if kt.start_offset == 0 { header_size } else { kt.start_offset };
        KeyScan {
            test_frames: 0,
            current_frame: 0,
            blank_frames: 0,
            total_score: 0,
            offset,
            finished: false,
        }
    }

    /// Whether the scan looks at another frame of a stream of
    /// `block_count` frames.
    pub fn wants_frame(&self, block_count: u32) -> (r: bool)
        ensures
            r == (!self.finished && self.test_frames < HCA_KEY_MAX_TEST_FRAMES
                && self.current_frame < block_count),
    {
        !self.finished && self.test_frames < HCA_KEY_MAX_TEST_FRAMES && self.current_frame
            < block_count
    }

    /// Take in what testing the frame at `offset` gave.
    pub fn step(&mut self, kt: &mut KeyTest, read: FrameRead, block_size: u32)
        requires
            scan_wf(*old(self)),
            !old(self).finished,
            old(self).test_frames < HCA_KEY_MAX_TEST_FRAMES,
            old(self).current_frame < u32::MAX,
            read is Scored ==> old(self).offset + block_size <= u32::MAX,
        ensures
            scan_wf(*final(self)),
            (*final(self), final(kt).start_offset) == spec_scan_step(*old(self),
                old(kt).start_offset, read, block_size),
            *final(kt) == (KeyTest { start_offset: final(kt).start_offset, ..*old(kt) }),
    {
        let score = match read {
            FrameRead::Unreadable => {
                self.finished = true;
                return;
            },
            FrameRead::Scored(score) => score,
        };
        if kt.start_offset == 0 && score != 0 {
            kt.start_offset = self.offset;
        }
        self.offset = self.offset + block_size;
        if score < 0 || score > HCA_KEY_MAX_FRAME_SCORE {
            self.total_score = -1;
            self.finished = true;
            return;
        }
        self.current_frame = self.current_frame + 1;
        if score == 0 && self.blank_frames < HCA_KEY_MAX_SKIP_BLANKS {
            self.blank_frames = self.blank_frames + 1;
            return;
        }
        self.test_frames = self.test_frames + 1;
        self.total_score = self.total_score + scale_frame_score(score);
        if self.total_score > HCA_KEY_MAX_TOTAL_SCORE {
            self.finished = true;
        }
    }

    /// The key's score once the scan is over: -1 for a wrong key, 1 for a
    /// perfect one, else lower is better.
    pub fn score(&self) -> (r: i32)
        ensures
            r == spec_finalize_score(self.total_score as int, self.test_frames as int),
    {
        finalize_score(self.total_score, self.test_frames)
    }
}

/// Where block `block` of a stream starts: after the header, `block`
/// blocks in; past the last block, the end of the stream.
pub fn block_offset(info: &HcaInfo, block: u32) -> (r: Result<u64, HcaDecoderError>)
    ensures
        block >= info.block_count ==> r == Err::<u64, HcaDecoderError>(HcaDecoderError::Eof),
        block < info.block_count ==> r == Ok::<u64, HcaDecoderError>(
            (info.header_size + block * info.block_size) as u64,
        ),
{
    if block >= info.block_count {
        return Err(HcaDecoderError::Eof);
    }
    proof {
        assert(block * info.block_size <= u32::MAX * u32::MAX) by (nonlinear_arith)
            requires
                block <= u32::MAX,
                info.block_size <= u32::MAX,
        ;
    }
    Ok(info.header_size as u64 + block as u64 * info.block_size as u64)
}

/// Errors of HCA stream decoding.
#[derive(Debug, Clone, Copy, PartialEq, Eq, Structural)]
pub enum HcaDecoderError {
    Io(IoError),
    /// The block decoder rejected the data.
    Hca,
    InvalidHeader,
    InvalidSampleRange,
    Eof,
}

impl HcaDecoderError {
    /// Human-readable message.
    pub fn message(&self) -> (r: String)
        ensures
            r@ == match self {
                HcaDecoderError::Io(e) => "IO error: "@ + io_text(*e),
                HcaDecoderError::Hca => "HCA error: block could not be decoded"@,
                HcaDecoderError::InvalidHeader => "Invalid HCA header"@,
                HcaDecoderError::InvalidSampleRange => "Invalid sample range"@,
                HcaDecoderError::Eof => "End of file"@,
            },
    {
        match self {
            HcaDecoderError::Io(e) => e.message(),
            HcaDecoderError::Hca => String::from_str("HCA error: block could not be decoded"),
            HcaDecoderError::InvalidHeader => String::from_str("Invalid HCA header"),
            HcaDecoderError::InvalidSampleRange => String::from_str("Invalid sample range"),
            HcaDecoderError::Eof => String::from_str("End of file"),
        }
    }
}

/// The key used for decryption: the keycode alone, or with a nonzero
/// subkey `s`, the keycode times `(s << 16) | ((!s as u16) + 2)`, all
/// wrapping in 64 bits.
pub open spec fn spec_hca_key(keycode: u64, subkey: u64) -> u64 {
    if subkey != 0 {
        let low = ((!subkey) as u16) as u64;
        let factor = ((subkey << 16u64) | ((low + 2) as u64)) as u64;
        ((keycode as int * factor as int) % 0x1_0000_0000_0000_0000) as u64
    } else {
        keycode
    }
}

/// The key `set_encryption_key` installs for a keycode and an AWB subkey.
pub fn hca_key(keycode: u64, subkey: u64) -> (r: u64)
    ensures
        r == spec_hca_key(keycode, subkey),
{
    if subkey != 0 {
        let low: u64 = ((!subkey) as u16) as u64;
        keycode.wrapping_mul((subkey << 16) | low.wrapping_add(2))
    } else {
        keycode
    }
}

/// Block to resume from and samples to drop in it, to land on
/// `sample_num` (counted after the encoder delay).
pub fn seek_position(info: &HcaInfo, sample_num: u32) -> (r: (u32, i32))
    requires
        info.samples_per_block as u32 > 0,
        sample_num + info.encoder_delay <= u32::MAX,
    ensures
        ({
            let target = sample_num + info.encoder_delay;
            let spb = info.samples_per_block as u32;
            &&& r.0 == target / (spb as int)
            &&& r.1 == (target % (spb as int)) as i32
        }),
{
    let spb = info.samples_per_block as u32;
    let target_sample = sample_num + info.encoder_delay;
    let loop_start_block = target_sample / spb;
    let loop_start_delay = target_sample % spb;
    proof {
        assert(loop_start_block * spb <= target_sample) by (nonlinear_arith)
            requires
                loop_start_block == target_sample / spb,
                spb > 0,
        ;
    }
    (loop_start_block, loop_start_delay as i32)
}

/// Resuming at the block `seek_position` gives and dropping the samples it
/// gives lands exactly on the sample asked for (after the encoder delay).
pub proof fn law_seek_lands_on_sample(target: int, spb: int)
    requires
        0 <= target,
        0 < spb,
    ensures
        (target / spb) * spb + target % spb == target,
        0 <= target % spb < spb,
{
    assert((target / spb) * spb + target % spb == target) by (nonlinear_arith)
        requires
            0 < spb,
    ;
}

/// Bytes of PCM data in the decoded WAV: every sample after the encoder
/// delay, 16-bit, for every channel.
pub open spec fn wav_data_size(info: HcaInfo) -> int {
    let total = info.block_count * (info.samples_per_block as u32) - info.encoder_delay;
    (if total > 0 { total } else { 0 }) * info.channel_count * 2
}

/// The counts the header computes stay within their types: the sample
/// count and the byte rate in 32 bits, the data size plus 36 in a `usize`,
/// twice the channel count in 32 bits. (The fields written from them are
/// cut to their widths.)
pub open spec fn wav_header_fits(info: HcaInfo) -> bool {
    &&& info.block_count * (info.samples_per_block as u32) <= u32::MAX
    &&& wav_data_size(info) + 36 <= usize::MAX
    &&& info.sampling_rate * info.channel_count * 2 <= u32::MAX
    &&& info.channel_count * 2 <= u32::MAX
}

proof fn lemma_le32_cut(x: u64)
    ensures
        le32_bytes((x % 0x1_0000_0000) as int) == le32_bytes(x as int),
{
    let y: u64 = x % 0x1_0000_0000;
    assert(y % 0x100 == x % 0x100) by (bit_vector)
        requires y == x % 0x1_0000_0000;
    assert(y / 0x100 % 0x100 == x / 0x100 % 0x100) by (bit_vector)
        requires y == x % 0x1_0000_0000;
    assert(y / 0x1_0000 % 0x100 == x / 0x1_0000 % 0x100) by (bit_vector)
        requires y == x % 0x1_0000_0000;
    assert(y / 0x100_0000 % 0x100 == x / 0x100_0000 % 0x100) by (bit_vector)
        requires y == x % 0x1_0000_0000;
    assert(le32_bytes(y as int) =~= le32_bytes(x as int));
}

proof fn lemma_le16_cut(x: u32)
    ensures
        le16_bytes((x % 0x1_0000) as int) == le16_bytes(x as int),
{
    let y: u32 = x % 0x1_0000;
    assert(y % 0x100 == x % 0x100) by (bit_vector)
        requires y == x % 0x1_0000;
    assert(y / 0x100 % 0x100 == x / 0x100 % 0x100) by (bit_vector)
        requires y == x % 0x1_0000;
    assert(le16_bytes(y as int) =~= le16_bytes(x as int));
}

/// The 44-byte header of a 16-bit PCM WAV file for a decoded stream.
pub open spec fn spec_wav_header(info: HcaInfo) -> Seq<u8> {
    seq![0x52u8, 0x49, 0x46, 0x46] + le32_bytes(36 + wav_data_size(info)) + seq![
        0x57u8,
        0x41,
        0x56,
        0x45,
        0x66,
        0x6D,
        0x74,
        0x20,
    ] + le32_bytes(16) + le16_bytes(1) + le16_bytes(info.channel_count as int) + le32_bytes(
        info.sampling_rate as int,
    ) + le32_bytes(info.sampling_rate * info.channel_count * 2) + le16_bytes(
        info.channel_count * 2,
    ) + le16_bytes(16) + seq![0x64u8, 0x61, 0x74, 0x61] + le32_bytes(wav_data_size(info))
}

/// The WAV header that `decode_to_wav` writes before the samples: "RIFF",
/// size, "WAVE", a 16-byte PCM "fmt " chunk (format 1, channels, rate, byte
/// rate, block align, 16 bits), then "data" and its size.
pub fn wav_header(info: &HcaInfo) -> (r: Vec<u8>)
    requires
        wav_header_fits(*info),
    ensures
        r@ == spec_wav_header(*info),
{
    let spb = info.samples_per_block as u32;
    proof {
        assert(info.block_count * spb <= u32::MAX);
    }
    let all: u32 = info.block_count * spb;
    let total_samples: u32 = if all > info.encoder_delay {
        all - info.encoder_delay
    } else {
        0
    };
    let ch = info.channel_count;
    proof {
        assert(total_samples * ch * 2 == wav_data_size(*info));
        assert(total_samples * ch * 2 >= 0) by (nonlinear_arith);
        assert(info.sampling_rate * ch <= u32::MAX) by (nonlinear_arith)
            requires
                info.sampling_rate * ch * 2 <= u32::MAX,
        ;
    }
    let total_pcm_bytes: u64 = total_samples as u64 * ch as u64 * 2;
    let riff_size: u64 = 36 + total_pcm_bytes;
    proof {
        lemma_le32_cut(riff_size);
        lemma_le32_cut(total_pcm_bytes);
        lemma_le16_cut(ch);
        lemma_le16_cut((ch * 2) as u32);
    }
    let mut h: Vec<u8> = Vec::new();
    h.push(0x52);
    h.push(0x49);
    h.push(0x46);
    h.push(0x46);
    write_u32_le(&mut h, (riff_size % 0x1_0000_0000) as u32);
    h.push(0x57);
    h.push(0x41);
    h.push(0x56);
    h.push(0x45);
    h.push(0x66);
    h.push(0x6D);
    h.push(0x74);
    h.push(0x20);
    write_u32_le(&mut h, 16);
    write_u16_le(&mut h, 1);
    write_u16_le(&mut h, (ch % 0x1_0000) as u16);
    write_u32_le(&mut h, info.sampling_rate);
    let byte_rate: u32 = info.sampling_rate * info.channel_count * 2;
    write_u32_le(&mut h, byte_rate);
    let block_align: u16 = ((ch * 2) % 0x1_0000) as u16;
    write_u16_le(&mut h, block_align);
    write_u16_le(&mut h, 16);
    h.push(0x64);
    h.push(0x61);
    h.push(0x74);
    h.push(0x61);
    write_u32_le(&mut h, (total_pcm_bytes % 0x1_0000_0000) as u32);
    proof {
        assert(h@ =~= spec_wav_header(*info));
    }
    h
}

proof fn lemma_le16_at(s: Seq<u8>, p: int, x: u16)
    requires
        0 <= p,
        p + 2 <= s.len(),
        s.subrange(p, p + 2) == le16_bytes(x as int),
    ensures
        le16(s.skip(p)) == x,
{
    assert(s.skip(p)[0] == s.subrange(p, p + 2)[0]);
    assert(s.skip(p)[1] == s.subrange(p, p + 2)[1]);
    lemma_le16_roundtrip(x);
}

proof fn lemma_le32_at(s: Seq<u8>, p: int, x: u32)
    requires
        0 <= p,
        p + 4 <= s.len(),
        s.subrange(p, p + 4) == le32_bytes(x as int),
    ensures
        le32(s.skip(p)) == x,
{
    assert(s.skip(p)[0] == s.subrange(p, p + 4)[0]);
    assert(s.skip(p)[1] == s.subrange(p, p + 4)[1]);
    assert(s.skip(p)[2] == s.subrange(p, p + 4)[2]);
    assert(s.skip(p)[3] == s.subrange(p, p + 4)[3]);
    lemma_le32_roundtrip(x);
}

/// The WAV header of a decoded stream describes 16-bit integer PCM: a
/// 16-byte "fmt " chunk with format tag 1 (PCM), the stream's channel count
/// and sampling rate, 16 bits per sample, a block alignment of one 16-bit
/// sample per channel and a byte rate of one block per sample period; the
/// RIFF size is the data size plus 36, and the data chunk announces the data
/// size (where it fits in 32 bits).
#[verifier::rlimit(40)]
pub proof fn law_wav_header_is_pcm16(info: HcaInfo)
    requires
        wav_header_fits(info),
        info.channel_count * 2 <= u16::MAX,
    ensures
        ({
            let h = spec_wav_header(info);
            &&& h.len() == 44
            &&& h.subrange(12, 16) == seq![0x66u8, 0x6D, 0x74, 0x20]
            &&& le32(h.skip(16)) == 16
            &&& le16(h.skip(20)) == 1
            &&& le16(h.skip(22)) == info.channel_count
            &&& le32(h.skip(24)) == info.sampling_rate
            &&& le16(h.skip(34)) == 16
            &&& le16(h.skip(32)) == le16(h.skip(22)) * (le16(h.skip(34)) / 8)
            &&& le32(h.skip(28)) == le32(h.skip(24)) * le16(h.skip(32))
            &&& h.subrange(36, 40) == seq![0x64u8, 0x61, 0x74, 0x61]
            &&& wav_data_size(info) + 36 <= u32::MAX ==> le32(h.skip(4)) == 36 + wav_data_size(info)
                && le32(h.skip(40)) == wav_data_size(info)
        }),
{
    let h = spec_wav_header(info);
    let ch = info.channel_count;
    let rate = info.sampling_rate;
    assert(h.len() == 44);
    assert(ch * 2 <= u16::MAX);
    assert(rate * ch * 2 <= u32::MAX);
    assert(h.subrange(12, 16) =~= seq![0x66u8, 0x6D, 0x74, 0x20]);
    assert(h.subrange(36, 40) =~= seq![0x64u8, 0x61, 0x74, 0x61]);
    assert(h.subrange(16, 20) =~= le32_bytes(16));
    lemma_le32_at(h, 16, 16);
    assert(h.subrange(20, 22) =~= le16_bytes(1));
    lemma_le16_at(h, 20, 1);
    assert(h.subrange(22, 24) =~= le16_bytes(ch as int));
    lemma_le16_at(h, 22, ch as u16);
    assert(h.subrange(24, 28) =~= le32_bytes(rate as int));
    lemma_le32_at(h, 24, rate);
    assert(h.subrange(28, 32) =~= le32_bytes(rate * ch * 2));
    lemma_le32_at(h, 28, (rate * ch * 2) as u32);
    assert(h.subrange(32, 34) =~= le16_bytes(ch * 2));
    lemma_le16_at(h, 32, (ch * 2) as u16);
    assert(h.subrange(34, 36) =~= le16_bytes(16));
    lemma_le16_at(h, 34, 16);
    assert(rate * ch * 2 == rate * (ch * 2)) by (nonlinear_arith);
    if wav_data_size(info) + 36 <= u32::MAX {
        let size = wav_data_size(info);
        assert(size >= 0) by {
            assert(wav_data_size(info) >= 0) by (nonlinear_arith)
                requires
                    wav_data_size(info) == (if info.block_count * (info.samples_per_block as u32)
                        - info.encoder_delay > 0 {
                        info.block_count * (info.samples_per_block as u32) - info.encoder_delay
                    } else {
                        0
                    }) * info.channel_count * 2,
            ;
        }
        assert(h.subrange(4, 8) =~= le32_bytes(36 + size));
        lemma_le32_at(h, 4, (36 + size) as u32);
        assert(h.subrange(40, 44) =~= le32_bytes(size));
        lemma_le32_at(h, 40, size as u32);
    }
}

} // verus!
