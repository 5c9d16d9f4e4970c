use ws_bitpack::{BitPackError, BitPackReader, BitPackWriter};

#[test]
fn test_write_position_and_alignment() {
    // aligning while at 0 stays at 0
    let buffer = vec![0; 10];
    let mut writer = BitPackWriter::new(buffer);
    assert!(writer.align().is_ok());
    assert_eq!(writer.position(), 0);

    // writing 1 bit doesn't write a byte.
    let buffer = vec![0; 10];
    let mut writer = BitPackWriter::new(buffer);
    assert!(writer.write_bit(true).is_ok());

    // aligning writes the byte and advances to second byte position.
    let buffer = vec![0; 10];
    let mut writer = BitPackWriter::new(buffer);
    assert!(writer.write_bit(true).is_ok());
    assert_eq!(writer.position(), 1);
    assert!(writer.align().is_ok());
    assert_eq!(writer.position(), 8);

    // writing 9 bits advances cursor to second byte position.
    let buffer = vec![0; 10];
    let mut writer = BitPackWriter::new(buffer);
    assert!(writer.write_u64(0, 9).is_ok());
    assert_eq!(writer.position(), 9);
}

#[test]
#[should_panic(expected = "OutOfBounds")]
fn test_write_out_of_bounds() {
    let buffer = vec![0; 1];
    let mut writer = BitPackWriter::new(buffer);
    assert!(writer.write_u64(0, 8).is_ok());
    writer.write_u64(0, 32).unwrap();
}

#[test]
fn writer_test_simple_message() {
    let buffer = vec![0; 47];
    let mut writer = BitPackWriter::new(buffer);

    // header
    assert!(writer.write_u64(47, 24).is_ok());
    assert!(writer.write_u64(2, 11).is_ok());

    // content
    assert!(writer.write_u64(6152, 32).is_ok());
    assert!(writer.write_u64(0, 32).is_ok());
    assert!(writer.write_u64(17, 32).is_ok());
    assert!(writer.write_u64(0, 32).is_ok());
    assert!(writer.write_u64(0, 64).is_ok());
    assert!(writer.write_u64(0, 16).is_ok());
    assert!(writer.write_u64(9, 5).is_ok());
    assert!(writer.write_u64(2629306514, 32).is_ok());
    assert!(writer.write_u64(0, 32).is_ok());
    assert!(writer.write_u64(0, 64).is_ok());

    // data is fully read
    assert!(writer.align().is_ok());
    assert_eq!(
        hex::encode(writer.as_bytes()),
        "2f00000240c00000000000008800000000000000000000\
        00000000000000489208b89c000000000000000000000000"
    );
}

#[test]
fn write_into_one_byte_stops_at_its_end() {
    let mut writer = BitPackWriter::new(vec![0; 1]);
    assert!(writer.write_u64(0xff, 8).is_ok());
    assert_eq!(writer.write_u64(0, 32), Err(BitPackError::OutOfBounds));
    let bytes = writer.into_bytes();
    assert_eq!(bytes, vec![0xff]);
}

#[test]
fn write_five_in_three_bits_reads_back() {
    let mut writer = BitPackWriter::new(vec![0; 2]);
    assert!(writer.write_u64(5, 3).is_ok());
    assert!(writer.write_u64(1, 1).is_ok());
    let bytes = writer.into_bytes();
    assert_eq!(bytes[0], 0b1101);
    let mut reader = BitPackReader::new(&bytes);
    assert_eq!(reader.read_u64(3), Ok(5));
    // the next bit is the first bit of the next field, not bit 2 again
    assert_eq!(reader.read_bit(), Ok(true));
    assert_eq!(reader.read_bit(), Ok(false));
}

#[test]
fn align_twice_is_align_once() {
    let mut writer = BitPackWriter::new(vec![0xff; 2]);
    assert!(writer.write_bit(true).is_ok());
    assert!(writer.align().is_ok());
    assert_eq!(writer.position(), 8);
    assert!(writer.align().is_ok());
    assert_eq!(writer.position(), 8);
    // padding bits are written as zero
    assert_eq!(writer.as_bytes()[0], 0x01);
    assert_eq!(writer.as_bytes()[1], 0xff);
}

#[test]
fn write_bytes_then_read_bytes() {
    let mut writer = BitPackWriter::with_position(vec![0; 3], 3);
    assert!(writer.write_bytes(&[0xab, 0xcd]).is_ok());
    assert_eq!(writer.position(), 19);
    let bytes = writer.into_bytes();
    let mut reader = BitPackReader::with_position(&bytes, 3);
    let mut buf = [0u8; 2];
    assert!(reader.read_bytes(&mut buf).is_ok());
    assert_eq!(buf, [0xab, 0xcd]);
}

#[test]
fn write_bit_clears_and_sets() {
    let mut writer = BitPackWriter::new(vec![0b1010_1010]);
    assert!(writer.write_bit(true).is_ok());
    assert!(writer.write_bit(false).is_ok());
    assert_eq!(writer.as_bytes()[0], 0b1010_1001);
}
