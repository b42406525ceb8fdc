use cridecoder::hca::bitreader::{BitReader, BitWriter};
use cridecoder::hca::cipher::{cipher_decrypt, cipher_init, cipher_init_0, cipher_init_1, cipher_init_56};
use cridecoder::hca::crc::crc16_checksum;
use cridecoder::hca::encoder::{
    calculate_frame_size, encode_scale_factors, encoder_cipher_table, hca_header, parse_wav, parse_wav_bytes, seal_frame, HcaEncoderConfig,
    HcaEncoderError, WavBytesError, HCA_HEADER_SIZE,
};
use cridecoder::hca::hca_file::{
    block_offset, finalize_score, hca_key, scale_frame_score, seek_position, wav_header, FrameRead,
    HcaDecoderError, HcaInfo, KeyScan, KeyTest, HCA_KEY_SCORE_SCALE,
};

#[test]
fn test_read_bits() {
    let data = [0b10110100, 0b01101001];
    let mut reader = BitReader::new(&data);

    assert_eq!(reader.read(1), 1);
    assert_eq!(reader.read(1), 0);
    assert_eq!(reader.read(2), 0b11);
    assert_eq!(reader.read(4), 0b0100);
    assert_eq!(reader.read(4), 0b0110);
}

#[test]
fn test_peek() {
    let data = [0b10110100];
    let reader = BitReader::new(&data);

    assert_eq!(reader.peek(4), 0b1011);
    assert_eq!(reader.peek(8), 0b10110100);
}

#[test]
fn test_skip() {
    let data = [0b10110100, 0b01101001];
    let mut reader = BitReader::new(&data);

    reader.skip(4);
    assert_eq!(reader.read(4), 0b0100);
}

#[test]
fn test_read_signed() {
    let data = [0b11110000];
    let mut reader = BitReader::new(&data);

    assert_eq!(reader.read_signed(4), -1);
}

#[test]
fn test_bit_writer() {
    let mut writer = BitWriter::new(2);
    writer.write(0b1011, 4);
    writer.write(0b0100, 4);

    assert_eq!(writer.data()[0], 0b10110100);
}

#[test]
fn test_cipher_init_0() {
    let mut table = [0u8; 256];
    cipher_init_0(&mut table);
    for i in 0..256 {
        assert_eq!(table[i], i as u8);
    }
}

#[test]
fn test_cipher_init_1() {
    let mut table = [0u8; 256];
    cipher_init_1(&mut table);
    assert_eq!(table[0], 0);
    assert_eq!(table[0xFF], 0xFF);
    assert_ne!(table[1], 1);
}

#[test]
fn test_encoder_config() {
    let config = HcaEncoderConfig::new(44100, 2).with_bitrate(256000);
    assert_eq!(config.sample_rate, 44100);
    assert_eq!(config.channels, 2);
    assert_eq!(config.bitrate, 256000);
}

#[test]
fn test_crc16() {
    let data = [0x48, 0x43, 0x41, 0x00];
    let crc = crc16_checksum(&data);
    assert!(crc != 0);
}

#[test]
fn test_scale_frame_score() {
    assert_eq!(scale_frame_score(1), 1);
    assert_eq!(scale_frame_score(0), 3 * HCA_KEY_SCORE_SCALE);
    assert_eq!(scale_frame_score(5), 5 * HCA_KEY_SCORE_SCALE);
    assert_eq!(scale_frame_score(-1), -1 * HCA_KEY_SCORE_SCALE);
}

#[test]
fn test_finalize_score() {
    assert_eq!(finalize_score(4, 5), 1);
    assert_eq!(finalize_score(2, 2), 2);
    assert_eq!(finalize_score(100, 5), 100);
    assert_eq!(finalize_score(-1, 5), -1);
}

#[test]
fn test_key_test_default() {
    let kt = KeyTest::default();
    assert_eq!(kt.key, 0);
    assert_eq!(kt.subkey, 0);
    assert_eq!(kt.start_offset, 0);
    assert_eq!(kt.best_score, 0);
    assert_eq!(kt.best_key, 0);
}

#[test]
fn test_hca_decoder_error_display() {
    let err = HcaDecoderError::InvalidHeader;
    assert_eq!(err.message(), "Invalid HCA header");

    let err = HcaDecoderError::Eof;
    assert_eq!(err.message(), "End of file");

    let err = HcaDecoderError::InvalidSampleRange;
    assert_eq!(err.message(), "Invalid sample range");
}

// ---------------------------------------------------------------------------
// Bit reader and writer
// ---------------------------------------------------------------------------

#[test]
fn bit_reader_position_and_edges() {
    let data = [0xFF, 0x00, 0xAA];
    let mut r = BitReader::with_offset(&data, 1);
    assert_eq!(r.position(), 8);
    assert_eq!(r.read(8), 0x00);
    assert_eq!(r.remaining_bits(), 8);
    assert!(r.has_bits(8));
    assert!(!r.has_bits(9));
    assert!(r.read_bit());
    r.set_position(23);
    assert!(!r.read_bit());
    // Past the end the bits read as zeros.
    assert_eq!(r.peek(4), 0);
    assert_eq!(r.read(4), 0);
    assert_eq!(r.position(), 28);
}

#[test]
fn bit_reader_signed_and_counts() {
    let data = [0b0111_0000, 0b1110_0000];
    let mut r = BitReader::new(&data);
    assert_eq!(r.read_signed(4), 7);
    assert_eq!(r.read_signed(0), 0);
    let mut r = BitReader::new(&data);
    // 3-bit scale count then off-by-one reads.
    let (a, b) = r.read_scale_count();
    assert_eq!((a, b), (5, 3));
    let mut r = BitReader::new(&[0b1000_0000]);
    assert_eq!(r.read_off_by_one(2), 3);
}

#[test]
fn bit_writer_then_reader() {
    let mut w = BitWriter::new(4);
    w.write(0x5, 3);
    w.write(0x1234, 13);
    w.write(0xABCDE, 20);
    let bytes = w.into_vec();
    let mut r = BitReader::new(&bytes);
    assert_eq!(r.read(3), 0x5);
    assert_eq!(r.read(13), 0x1234);
    // Only 16 bits of room remain for the 20-bit field.
    assert_eq!(r.read(16), 0xABCD);
}

#[test]
fn bit_writer_ignores_bad_widths() {
    let mut w = BitWriter::new(1);
    w.write(0xFF, 0);
    w.write(0xFF, 33);
    assert_eq!(w.data(), &[0u8][..]);
}

// ---------------------------------------------------------------------------
// Ciphers
// ---------------------------------------------------------------------------

#[test]
fn cipher_init_1_values() {
    let mut table = [0u8; 256];
    cipher_init_1(&mut table);
    let mut seen = [false; 256];
    for &v in table.iter() {
        assert!(!seen[v as usize]);
        seen[v as usize] = true;
    }
    assert_eq!(table[1], 0x0B);
}

#[test]
fn cipher_init_56_is_a_permutation_keeping_ends() {
    let mut table = [0u8; 256];
    cipher_init_56(&mut table, 0x0030_D9E8);
    assert_eq!(table[0], 0);
    assert_eq!(table[0xFF], 0xFF);
    let mut seen = [false; 256];
    for &v in table.iter() {
        assert!(!seen[v as usize]);
        seen[v as usize] = true;
    }
    let mut other = [0u8; 256];
    cipher_init_56(&mut other, 0x0030_D9E9);
    assert_ne!(table, other);
}

#[test]
fn cipher_init_dispatch_and_decrypt() {
    let mut a = [0u8; 256];
    let mut b = [0u8; 256];
    cipher_init(&mut a, 0, 123);
    cipher_init_0(&mut b);
    assert_eq!(a, b);
    cipher_init(&mut a, 1, 123);
    cipher_init_1(&mut b);
    assert_eq!(a, b);
    cipher_init(&mut a, 56, 0);
    cipher_init_0(&mut b);
    assert_eq!(a, b);
    cipher_init(&mut a, 9, 7);
    assert_eq!(a, b);
    cipher_init(&mut a, 56, 7);
    cipher_init_56(&mut b, 7);
    assert_eq!(a, b);
    let mut data = [0u8, 1, 2, 0xFF];
    cipher_decrypt(&a, &mut data);
    assert_eq!(data, [a[0], a[1], a[2], a[0xFF]]);
}

// ---------------------------------------------------------------------------
// Checksums, headers, frames
// ---------------------------------------------------------------------------

#[test]
fn crc16_known_values() {
    assert_eq!(crc16_checksum(&[]), 0);
    assert_eq!(crc16_checksum(&[0x01]), 0x8005);
    let data = [0x48, 0x43, 0x41, 0x00];
    let crc = crc16_checksum(&data);
    let mut sealed = data.to_vec();
    sealed.extend_from_slice(&crc.to_be_bytes());
    assert_eq!(crc16_checksum(&sealed), 0);
}

#[test]
fn encoder_config_validation() {
    assert_eq!(HcaEncoderConfig::new(44100, 2).validate(), Ok(()));
    assert_eq!(
        HcaEncoderConfig::new(0, 2).validate(),
        Err(HcaEncoderError::InvalidSampleRate(0))
    );
    assert_eq!(
        HcaEncoderConfig::new(0x80_0000, 2).validate(),
        Err(HcaEncoderError::InvalidSampleRate(0x80_0000))
    );
    assert_eq!(
        HcaEncoderConfig::new(44100, 0).validate(),
        Err(HcaEncoderError::InvalidChannelCount(0))
    );
    assert_eq!(
        HcaEncoderConfig::new(44100, 17).validate(),
        Err(HcaEncoderError::InvalidChannelCount(17))
    );
    let d = HcaEncoderConfig::default();
    assert_eq!((d.sample_rate, d.channels, d.bitrate), (44100, 2, 256000));
    let e = d.with_encryption(5);
    assert_eq!(e.encryption_key, Some(5));
    assert_eq!(HcaEncoderError::NoSamples.message(), "No samples provided");
    assert_eq!(HcaEncoderError::InvalidSampleRate(0).message(), "Invalid sample rate: 0");
    assert_eq!(
        HcaEncoderError::InvalidChannelCount(4294967295).message(),
        "Invalid channel count: 4294967295"
    );
}

#[test]
fn frame_size_from_bitrate() {
    assert_eq!(calculate_frame_size(256000, 44100), 743);
    assert_eq!(calculate_frame_size(1000, 44100), 0x100);
    assert_eq!(calculate_frame_size(100_000_000, 44100), 0x1000);
}

#[test]
fn header_layout_and_checksum() {
    let config = HcaEncoderConfig::new(44100, 2);
    let h = hca_header(&config, 0x155, 16);
    assert_eq!(h.len(), HCA_HEADER_SIZE as usize);
    assert_eq!(&h[0..4], b"HCA\0");
    assert_eq!(&h[4..8], &[0x02, 0x00, 0x00, 0x60]);
    assert_eq!(&h[8..12], b"fmt\0");
    assert_eq!(&h[12..16], &[2, 0x00, 0xAC, 0x44]);
    assert_eq!(&h[16..20], &[0, 0, 0, 16]);
    assert_eq!(crc16_checksum(&h), 0);
    let masked = hca_header(&config.with_encryption(1), 0x155, 16);
    assert_eq!(&masked[0..4], &[0xC8, 0xC3, 0xC1, 0x00]);
    assert_eq!(crc16_checksum(&masked), 0);
}

#[test]
fn sealed_frames_pass_checksum() {
    let mut table = [0u8; 256];
    cipher_init_1(&mut table);
    let bits = [1u8, 2, 3, 4, 5];
    let plain = seal_frame(&bits, 8, &table, false);
    assert_eq!(&plain[0..6], &[1, 2, 3, 4, 5, 0]);
    assert_eq!(crc16_checksum(&plain), 0);
    let enc = seal_frame(&bits, 8, &table, true);
    assert_eq!(enc[0], table[1]);
    assert_eq!(enc[5], table[0]);
    assert_eq!(crc16_checksum(&enc), 0);
    let cut = seal_frame(&bits, 4, &table, false);
    assert_eq!(&cut[0..2], &[1, 2]);
    assert_eq!(cut.len(), 4);
}

fn wav_bytes(channels: u16, rate: u32, bits: u16, samples: &[u8]) -> Vec<u8> {
    let mut w = b"RIFF".to_vec();
    w.extend_from_slice(&(36 + samples.len() as u32).to_le_bytes());
    w.extend_from_slice(b"WAVEfmt ");
    w.extend_from_slice(&16u32.to_le_bytes());
    w.extend_from_slice(&1u16.to_le_bytes());
    w.extend_from_slice(&channels.to_le_bytes());
    w.extend_from_slice(&rate.to_le_bytes());
    w.extend_from_slice(&(rate * channels as u32 * bits as u32 / 8).to_le_bytes());
    w.extend_from_slice(&(channels * bits / 8).to_le_bytes());
    w.extend_from_slice(&bits.to_le_bytes());
    w.extend_from_slice(b"data");
    w.extend_from_slice(&(samples.len() as u32).to_le_bytes());
    w.extend_from_slice(samples);
    w
}

#[test]
fn wav_parsing() {
    let w = wav_bytes(1, 22050, 16, &[1, 0, 2, 0]);
    let f = parse_wav(&w).unwrap();
    assert_eq!(f.channels, 1);
    assert_eq!(f.sample_rate, 22050);
    assert_eq!(f.bits_per_sample, 16);
    assert_eq!(f.data_start, 44);
    assert_eq!(f.data_len, 4);
    assert_eq!(parse_wav(b"RIFX"), Err(HcaEncoderError::NoSamples));
    let empty = wav_bytes(2, 44100, 16, &[]);
    let mut padded = empty.clone();
    padded.extend_from_slice(&[0; 8]);
    assert_eq!(parse_wav(&padded), Err(HcaEncoderError::NoSamples));
}

#[test]
fn scale_factors_direct_encoding() {
    let mut sf = [0u8; 128];
    sf[0] = 1;
    sf[1] = 2;
    let mut w = BitWriter::new(4);
    encode_scale_factors(&mut w, &sf, 2);
    // 110 000001 000010, then the next write would start at bit 15.
    w.write(1, 1);
    assert_eq!(w.data(), &[0xC0, 0x85, 0, 0]);
}

#[test]
fn scale_factors_all_zero_or_none() {
    let sf = [0u8; 128];
    let mut w = BitWriter::new(1);
    w.write(0xFF, 8);
    let mut w2 = BitWriter::new(2);
    encode_scale_factors(&mut w2, &sf, 5);
    w2.write(0b11111, 5);
    assert_eq!(w2.data(), &[0b00011111, 0]);
    let mut w3 = BitWriter::new(1);
    let mut ones = [0u8; 128];
    ones[0] = 63;
    encode_scale_factors(&mut w3, &ones, 0);
    w3.write(0b11111, 5);
    assert_eq!(w3.data(), &[0b00011111]);
    assert_eq!(w.data(), &[0xFF]);
}

/// A RIFF/WAVE file with an odd-sized chunk, padded, before "fmt ".
fn wav_with_odd_chunk(bits: u16) -> Vec<u8> {
    let base = wav_bytes(2, 48000, bits, &[0; 6]);
    let mut w = base[..12].to_vec();
    w.extend_from_slice(b"LIST");
    w.extend_from_slice(&3u32.to_le_bytes());
    w.extend_from_slice(&[1, 2, 3, 0]);
    w.extend_from_slice(&base[12..]);
    w
}

#[test]
fn wav_bytes_parsing_skips_pad_byte() {
    let w = wav_with_odd_chunk(24);
    let f = parse_wav_bytes(&w).unwrap();
    assert_eq!(f.channels, 2);
    assert_eq!(f.sample_rate, 48000);
    assert_eq!(f.bits_per_sample, 24);
    assert_eq!(f.data_start, 56);
    assert_eq!(f.data_len, 6);
    // Without the pad byte the walk lands one byte short of "fmt ".
    assert_eq!(parse_wav(&w), Err(HcaEncoderError::NoSamples));
}

#[test]
fn wav_bytes_parsing_errors() {
    assert_eq!(parse_wav_bytes(b"RIFF"), Err(WavBytesError::InvalidWav));
    let empty = wav_bytes(2, 44100, 16, &[]);
    let mut padded = empty.clone();
    padded.extend_from_slice(&[0; 8]);
    assert_eq!(parse_wav_bytes(&padded), Err(WavBytesError::NoDataChunk));
    let w = wav_bytes(1, 8000, 8, &[1, 2, 3, 4]);
    assert_eq!(parse_wav_bytes(&w), Err(WavBytesError::UnsupportedBitDepth(8)));
    assert_eq!(parse_wav(&w).unwrap().bits_per_sample, 8);
    let w = wav_bytes(1, 8000, 16, &[1, 2, 3, 4]);
    assert_eq!(parse_wav_bytes(&w).unwrap().data_len, 4);
}

// ---------------------------------------------------------------------------
// Keys, seeking, WAV headers
// ---------------------------------------------------------------------------

#[test]
fn key_derivation() {
    assert_eq!(hca_key(0x1234, 0), 0x1234);
    let sub: u64 = 0x0102;
    let expected = 0x1234u64.wrapping_mul((sub << 16) | ((!sub as u16) as u64 + 2));
    assert_eq!(hca_key(0x1234, sub), expected);
}

#[test]
fn key_search_keeps_the_best() {
    let mut kt = KeyTest::default();
    kt.key = 5;
    kt.record_score(-1);
    assert_eq!(kt.best_score, 0);
    kt.record_score(40);
    assert_eq!((kt.best_score, kt.best_key), (40, 5));
    kt.key = 6;
    kt.record_score(10);
    assert_eq!((kt.best_score, kt.best_key), (10, 6));
    kt.key = 7;
    kt.record_score(20);
    assert_eq!((kt.best_score, kt.best_key), (10, 6));
}

fn info() -> HcaInfo {
    HcaInfo {
        sampling_rate: 44100,
        channel_count: 2,
        block_count: 10,
        block_size: 0x155,
        samples_per_block: 1024,
        encoder_delay: 128,
        header_size: 0x60,
    }
}

#[test]
fn seek_position_for_samples() {
    assert_eq!(seek_position(&info(), 0), (0, 128));
    assert_eq!(seek_position(&info(), 2000), (2, 80));
}

#[test]
fn wav_header_fields() {
    let h = wav_header(&info());
    let pcm = (10 * 1024 - 128) * 2 * 2;
    assert_eq!(h.len(), 44);
    assert_eq!(&h[0..4], b"RIFF");
    assert_eq!(&h[4..8], &(36 + pcm as u32).to_le_bytes());
    assert_eq!(&h[8..16], b"WAVEfmt ");
    assert_eq!(&h[22..24], &2u16.to_le_bytes());
    assert_eq!(&h[24..28], &44100u32.to_le_bytes());
    assert_eq!(&h[28..32], &(44100u32 * 4).to_le_bytes());
    assert_eq!(&h[36..40], b"data");
    assert_eq!(&h[40..44], &(pcm as u32).to_le_bytes());
}

#[test]
fn key_scan_perfect_key() {
    let mut kt = KeyTest::default();
    let mut scan = KeyScan::start(&kt, 0x60);
    assert_eq!(scan.offset, 0x60);
    let mut frames = 0;
    while scan.wants_frame(100) {
        scan.step(&mut kt, FrameRead::Scored(1), 0x100);
        frames += 1;
    }
    assert_eq!(frames, 7);
    assert_eq!(scan.test_frames, 7);
    assert_eq!(scan.total_score, 7);
    assert_eq!(scan.score(), 1);
    assert_eq!(kt.start_offset, 0x60);
    assert_eq!(scan.offset, 0x60 + 7 * 0x100);
}

#[test]
fn key_scan_skips_blank_frames_and_scales() {
    let mut kt = KeyTest::default();
    let mut scan = KeyScan::start(&kt, 0x60);
    scan.step(&mut kt, FrameRead::Scored(0), 0x100);
    assert_eq!(scan.blank_frames, 1);
    assert_eq!(scan.test_frames, 0);
    assert_eq!(kt.start_offset, 0);
    scan.step(&mut kt, FrameRead::Scored(2), 0x100);
    assert_eq!(kt.start_offset, 0x160);
    assert_eq!(scan.total_score, 20);
    for _ in 0..3 {
        scan.step(&mut kt, FrameRead::Scored(1), 0x100);
    }
    assert_eq!(scan.test_frames, 4);
    assert_eq!(scan.current_frame, 5);
    assert_eq!(scan.score(), 23);
    // A later search starts where this one found the first nonblank frame.
    let next = KeyScan::start(&kt, 0x60);
    assert_eq!(next.offset, 0x160);
}

#[test]
fn key_scan_wrong_key_and_unreadable() {
    let mut kt = KeyTest::default();
    let mut scan = KeyScan::start(&kt, 0x60);
    scan.step(&mut kt, FrameRead::Scored(601), 0x100);
    assert!(scan.finished);
    assert_eq!(scan.score(), -1);
    assert!(!scan.wants_frame(100));

    let mut kt = KeyTest::default();
    let mut scan = KeyScan::start(&kt, 0x60);
    scan.step(&mut kt, FrameRead::Scored(3), 0x100);
    scan.step(&mut kt, FrameRead::Unreadable, 0x100);
    assert!(scan.finished);
    assert_eq!(scan.score(), 30);
    assert_eq!(scan.offset, 0x160);
}

#[test]
fn key_scan_stops_over_total() {
    let mut kt = KeyTest::default();
    let mut scan = KeyScan::start(&kt, 0);
    scan.step(&mut kt, FrameRead::Scored(300), 1);
    assert!(!scan.finished);
    assert_eq!(scan.total_score, 3000);
    scan.step(&mut kt, FrameRead::Scored(60), 1);
    assert!(scan.finished);
    assert_eq!(scan.total_score, 3600);
    assert!(!scan.wants_frame(100));
    assert_eq!(scan.score(), 3600);
}

#[test]
fn encoder_cipher_tables() {
    let identity: Vec<u8> = (0..=255u8).collect();
    assert_eq!(encoder_cipher_table(None).to_vec(), identity);
    assert_eq!(encoder_cipher_table(Some(0)).to_vec(), identity);
    let key = 0x0123_4567_89AB_CDEFu64;
    let mut expected = [0u8; 256];
    cipher_init(&mut expected, 56, key);
    let table = encoder_cipher_table(Some(key));
    assert_eq!(table, expected);
    assert_ne!(table.to_vec(), identity);
    assert_eq!(table[0], 0);
    assert_eq!(table[255], 255);
}

#[test]
fn block_offsets() {
    let info = HcaInfo {
        sampling_rate: 44100,
        channel_count: 2,
        block_count: 3,
        block_size: 0x200,
        samples_per_block: 1024,
        encoder_delay: 0,
        header_size: 0x60,
    };
    assert_eq!(block_offset(&info, 0), Ok(0x60));
    assert_eq!(block_offset(&info, 2), Ok(0x460));
    assert_eq!(block_offset(&info, 3), Err(HcaDecoderError::Eof));
}

#[test]
fn wav_header_cuts_wide_fields() {
    let info = HcaInfo {
        sampling_rate: 1,
        channel_count: 0x1_0001,
        block_count: 1,
        block_size: 0x100,
        samples_per_block: 1,
        encoder_delay: 0,
        header_size: 0x60,
    };
    let h = wav_header(&info);
    assert_eq!(h.len(), 44);
    let data_size = 2 * 0x1_0001u32;
    assert_eq!(&h[4..8], &(36 + data_size).to_le_bytes());
    assert_eq!(&h[22..24], &1u16.to_le_bytes());
    assert_eq!(&h[28..32], &(2 * 0x1_0001u32).to_le_bytes());
    assert_eq!(&h[32..34], &2u16.to_le_bytes());
    assert_eq!(&h[40..44], &data_size.to_le_bytes());
}

#[test]
fn type56_table_is_a_permutation() {
    for key in [1u64, 2, 0x0123_4567_89AB_CDEF, u64::MAX] {
        let mut a = [7u8; 256];
        cipher_init_56(&mut a, key);
        let mut b = [0u8; 256];
        cipher_init_56(&mut b, key);
        assert_eq!(a, b);
        let mut seen = [false; 256];
        for v in a.iter() {
            assert!(!seen[*v as usize]);
            seen[*v as usize] = true;
        }
        assert_eq!(a[0], 0);
        assert_eq!(a[255], 255);
    }
    let mut z = [0u8; 256];
    cipher_init_56(&mut z, 0);
    let mut one = [0u8; 256];
    cipher_init_56(&mut one, 1);
    assert_eq!(z, one);
}
