use cridecoder::reader::{align, IoError, Reader, SeekFrom};

#[test]
fn test_read_u32() {
    let data = [0x12, 0x34, 0x56, 0x78];
    let mut reader = Reader::new(data.to_vec());
    assert_eq!(reader.read_u32().unwrap(), 0x12345678);
}

#[test]
fn test_read_string0() {
    let data = b"hello\0world";
    let mut reader = Reader::new(data.to_vec());
    assert_eq!(reader.read_string0().unwrap(), "hello");
}

#[test]
fn test_align() {
    assert_eq!(align(4, 0), 0);
    assert_eq!(align(4, 1), 4);
    assert_eq!(align(4, 4), 4);
    assert_eq!(align(4, 5), 8);
    assert_eq!(align(32, 100), 128);
}

#[test]
fn reads_in_both_byte_orders() {
    let data = vec![
        0x12, 0x34, 0x56, 0x78, 0x9A, 0xBC, 0xDE, 0xF0, 0xFF, 0xFE, 0x80, 0x00, 0x00, 0x01,
    ];
    let mut r = Reader::new(data.clone());
    assert_eq!(r.read_u64().unwrap(), 0x1234_5678_9ABC_DEF0);
    assert_eq!(r.read_i16().unwrap(), -2);
    assert_eq!(r.read_i32().unwrap(), -0x7FFF_FFFF);
    let mut r = Reader::new(data.clone());
    assert_eq!(r.read_u16_le().unwrap(), 0x3412);
    assert_eq!(r.read_u32_le().unwrap(), 0xBC9A_7856);
    assert_eq!(r.read_u16().unwrap(), 0xDEF0);
    assert_eq!(r.read_u8().unwrap(), 0xFF);
    assert_eq!(r.read_i8().unwrap(), -2);
    assert_eq!(r.stream_position().unwrap(), 10);
    assert_eq!(r.into_inner(), data);
}

#[test]
fn short_reads_fail_and_move_to_the_end() {
    let mut r = Reader::new(vec![1, 2, 3]);
    assert_eq!(r.read_u32(), Err(IoError::UnexpectedEof));
    assert_eq!(r.stream_position().unwrap(), 3);
    assert_eq!(r.read_bytes(0).unwrap(), Vec::<u8>::new());
    let mut r = Reader::new(vec![1, 2, 3]);
    assert_eq!(r.read_bytes(2).unwrap(), vec![1, 2]);
    assert_eq!(r.read_bytes(2), Err(IoError::UnexpectedEof));
}

#[test]
fn seek_from_each_origin() {
    let mut r = Reader::new(vec![0; 10]);
    assert_eq!(r.seek(SeekFrom::Start(4)), Ok(4));
    assert_eq!(r.seek(SeekFrom::Current(-2)), Ok(2));
    assert_eq!(r.seek(SeekFrom::End(-1)), Ok(9));
    assert_eq!(r.seek(SeekFrom::Current(-20)), Err(IoError::InvalidSeek));
    assert_eq!(r.stream_position().unwrap(), 9);
    assert_eq!(r.seek(SeekFrom::Start(100)), Ok(100));
    assert_eq!(r.read_u8(), Err(IoError::UnexpectedEof));
}

#[test]
fn reads_at_an_offset_keep_the_position() {
    let mut r = Reader::new(vec![9, 8, 7, 6, 5]);
    r.read_u8().unwrap();
    assert_eq!(r.read_bytes_at(2, 3).unwrap(), vec![6, 5]);
    assert_eq!(r.stream_position().unwrap(), 1);
    assert_eq!(r.read_bytes_at(3, 3), Err(IoError::UnexpectedEof));
}

#[test]
fn strings_up_to_a_zero() {
    let mut r = Reader::new(b"ab\0\xff\xfe\0cd".to_vec());
    assert_eq!(r.read_string0().unwrap(), "ab");
    // Invalid UTF-8 is replaced, not refused.
    assert_eq!(r.read_string0().unwrap(), "\u{FFFD}\u{FFFD}");
    assert_eq!(r.read_string0(), Err(IoError::UnexpectedEof));
    let mut r = Reader::new(b"xy\0".to_vec());
    assert_eq!(r.read_cstring_bytes().unwrap(), b"xy".to_vec());
}

#[test]
fn read_string0_at_keeps_position() {
    let mut r = Reader::new(b"ab\0cd\0ef".to_vec());
    r.read_u8().unwrap();
    assert_eq!(r.read_string0_at(3).unwrap(), "cd");
    assert_eq!(r.stream_position().unwrap(), 1);
    assert_eq!(r.read_string0_at(6), Err(IoError::UnexpectedEof));
    assert_eq!(r.read_string0_at(100), Err(IoError::UnexpectedEof));
    assert_eq!(r.stream_position().unwrap(), 1);
    assert_eq!(r.read_string0().unwrap(), "b");
}

#[test]
fn io_error_texts() {
    assert_eq!(IoError::UnexpectedEof.message(), "IO error: failed to fill whole buffer");
    assert_eq!(
        IoError::InvalidSeek.message(),
        "IO error: invalid seek to a negative or overflowing position"
    );
    assert_eq!(
        cridecoder::UsmError::Io(IoError::UnexpectedEof).message(),
        "IO error: failed to fill whole buffer"
    );
    assert_eq!(
        cridecoder::HcaDecoderError::Io(IoError::InvalidSeek).message(),
        "IO error: invalid seek to a negative or overflowing position"
    );
}
