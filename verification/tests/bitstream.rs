use flac_encoder::flac::bitstream::BitstreamWriter;

#[test]
fn writer_starts_empty() {
    let writer = BitstreamWriter::new();
    assert!(writer.bytes().is_empty());
    assert_eq!(writer.bit_position(), 0);
    assert_eq!(writer.unused_bits(), 0);
}

#[test]
fn write_bits_is_most_significant_first() {
    let mut writer = BitstreamWriter::new();
    writer.write_bits(0b101, 3);
    assert_eq!(writer.bytes(), vec![0b1010_0000]);
    assert_eq!(writer.bit_position(), 3);
    assert_eq!(writer.unused_bits(), 5);
    writer.write_bits(0x3ffe, 14);
    assert_eq!(writer.bytes(), vec![0b1011_1111, 0b1111_1111, 0b0000_0000]);
    assert_eq!(writer.bit_position(), 17);
}

#[test]
fn write_bits_truncates_high_bits() {
    let mut writer = BitstreamWriter::new();
    writer.write_bits(0xabcd, 8);
    assert_eq!(writer.bytes(), vec![0xcd]);
    writer.write_bits(u64::MAX, 0);
    assert_eq!(writer.bit_position(), 8);
    writer.write_bits(0x0123_4567_89ab_cdef, 64);
    assert_eq!(
        writer.bytes(),
        vec![0xcd, 0x01, 0x23, 0x45, 0x67, 0x89, 0xab, 0xcd, 0xef]
    );
}

#[test]
fn write_signed_is_twos_complement() {
    let mut writer = BitstreamWriter::new();
    writer.write_signed(-1, 4);
    writer.write_signed(-8, 4);
    assert_eq!(writer.bytes(), vec![0xf8]);
    writer.write_signed(-2, 16);
    assert_eq!(writer.bytes(), vec![0xf8, 0xff, 0xfe]);
    writer.write_signed(5, 8);
    assert_eq!(writer.bytes(), vec![0xf8, 0xff, 0xfe, 0x05]);
    writer.write_signed(i64::MIN, 64);
    assert_eq!(
        writer.bytes(),
        vec![0xf8, 0xff, 0xfe, 0x05, 0x80, 0, 0, 0, 0, 0, 0, 0]
    );
}

#[test]
fn write_unary_is_zeros_then_one() {
    let mut writer = BitstreamWriter::new();
    writer.write_unary(0);
    writer.write_unary(3);
    writer.write_unary(1);
    assert_eq!(writer.bytes(), vec![0b1000_1010]);
    assert_eq!(writer.bit_position(), 7);
    writer.write_unary(10);
    assert_eq!(writer.bytes(), vec![0b1000_1010, 0b0000_0000, 0b0100_0000]);
}

#[test]
fn align_pads_with_zeros_and_is_idempotent() {
    let mut writer = BitstreamWriter::new();
    assert_eq!(writer.align_to_byte(), 0);
    writer.write_bits(0b11, 2);
    assert_eq!(writer.align_to_byte(), 6);
    assert_eq!(writer.bit_position(), 8);
    assert_eq!(writer.align_to_byte(), 0);
    assert_eq!(writer.bytes(), vec![0b1100_0000]);
    writer.write_bit(true);
    assert_eq!(writer.align_to_byte(), 7);
    assert_eq!(writer.bytes(), vec![0b1100_0000, 0b1000_0000]);
}
