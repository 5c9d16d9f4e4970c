use ws_bitpack::{BitPackError, BitPackReader};

#[test]
fn test_read_position_and_alignment() {
    let data = hex::decode("ffffffff").unwrap();

    // aligning while at 0 stays at 0
    let mut reader = BitPackReader::new(&data);
    assert!(reader.align().is_ok());
    assert_eq!(reader.position(), 0);

    // reading 1 bit advances cursor to second byte position.
    let mut reader = BitPackReader::new(&data);
    assert!(reader.read_bit().is_ok());

    // aligning doesn't consume a byte, but advances bit position.
    let mut reader = BitPackReader::new(&data);
    assert!(reader.read_bit().is_ok());
    assert_eq!(reader.position(), 1);
    assert!(reader.align().is_ok());
    assert_eq!(reader.position(), 8);

    // reading 9 bits advances cursor to third byte position.
    let mut reader = BitPackReader::new(&data);
    assert!(reader.read_u64(9).is_ok());
    assert_eq!(reader.position(), 9);
}

#[test]
fn reader_test_simple_message() {
    let data = "2f00000240c00000000000008800000000000000000000\
        00000000000000489208b89c000000000000000000000000";
    let data = hex::decode(data).unwrap();
    let mut reader = BitPackReader::new(&data);

    // header
    assert_eq!(reader.read_u64(24).unwrap(), 47);
    assert_eq!(reader.read_u64(11).unwrap(), 2);

    // content
    assert_eq!(reader.read_u64(32).unwrap(), 6152);
    assert_eq!(reader.read_u64(32).unwrap(), 0);
    assert_eq!(reader.read_u64(32).unwrap(), 17);
    assert_eq!(reader.read_u64(32).unwrap(), 0);
    assert_eq!(reader.read_u64(64).unwrap(), 0);
    assert_eq!(reader.read_u64(16).unwrap(), 0);
    assert_eq!(reader.read_u64(5).unwrap(), 9);
    assert_eq!(reader.read_u64(32).unwrap(), 2629306514);
    assert_eq!(reader.read_u64(32).unwrap(), 0);
    assert_eq!(reader.read_u64(64).unwrap(), 0);

    // data is fully read
    assert!(reader.align().is_ok());
    assert_eq!(reader.position(), 47 * 8);
}

#[test]
fn read_header_fields() {
    let data = hex::decode("2f00000200").unwrap();
    let mut reader = BitPackReader::new(&data);
    assert_eq!(reader.read_u64(24), Ok(47));
    assert_eq!(reader.read_u64(11), Ok(2));
    assert_eq!(reader.position(), 35);
}

#[test]
fn read_past_end_is_out_of_bounds() {
    let data = vec![0xffu8];
    let mut reader = BitPackReader::new(&data);
    assert_eq!(reader.read_u64(32), Err(BitPackError::OutOfBounds));
    let mut reader = BitPackReader::new(&data);
    assert_eq!(reader.read_u64(8), Ok(0xff));
    assert_eq!(reader.read_bit(), Err(BitPackError::OutOfBounds));
}

#[test]
fn read_zero_bits_is_zero() {
    let data = vec![0xffu8];
    let mut reader = BitPackReader::with_position(&data, 8);
    assert_eq!(reader.read_u64(0), Ok(0));
    assert_eq!(reader.position(), 8);
}

#[test]
fn read_bits_least_significant_first() {
    // 0b0000_0101: bit 0 and bit 2 set
    let data = vec![0x05u8, 0x80];
    let mut reader = BitPackReader::new(&data);
    assert_eq!(reader.read_bit(), Ok(true));
    assert_eq!(reader.read_bit(), Ok(false));
    assert_eq!(reader.read_bit(), Ok(true));
    let mut reader = BitPackReader::with_position(&data, 15);
    assert_eq!(reader.read_bit(), Ok(true));
}

#[test]
fn read_bytes_fills_buffer() {
    let data = vec![0x12u8, 0x34, 0x56];
    let mut reader = BitPackReader::with_position(&data, 4);
    let mut buf = [0u8; 2];
    assert!(reader.read_bytes(&mut buf).is_ok());
    assert_eq!(buf, [0x41, 0x63]);
    let mut big = [0u8; 3];
    assert_eq!(reader.read_bytes(&mut big), Err(BitPackError::OutOfBounds));
}

#[test]
fn align_at_end_fails_when_padding_is_missing() {
    let data = vec![0u8];
    let mut reader = BitPackReader::with_position(&data, 8);
    assert!(reader.align().is_ok());
    assert_eq!(reader.position(), 8);
}
