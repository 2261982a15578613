use lotus::{BitReader, BitWriter, LotusError};

#[test]
fn writer_packs_most_significant_bit_first() {
    let mut writer = BitWriter::new();
    writer.write_bits(0b101, 3).unwrap();
    assert_eq!(writer.clone().into_bytes(), vec![0b1010_0000]);
    writer.write_bits(0b1_1111, 5).unwrap();
    assert_eq!(writer.clone().into_bytes(), vec![0b1011_1111]);
    writer.write_bits(0x1ff, 9).unwrap();
    assert_eq!(writer.clone().into_bytes(), vec![0b1011_1111, 0xff, 0x80]);
    writer.write_bits(0, 0).unwrap();
    assert_eq!(writer.into_bytes(), vec![0b1011_1111, 0xff, 0x80]);
}

#[test]
fn writer_that_wrote_nothing_gives_no_bytes() {
    assert_eq!(BitWriter::new().into_bytes(), Vec::<u8>::new());
    assert_eq!(BitWriter::default().into_bytes(), Vec::<u8>::new());
}

#[test]
fn writer_takes_only_the_low_bits_of_a_value() {
    let mut writer = BitWriter::new();
    writer.write_bits(0xffff_ffff_ffff_fff5, 4).unwrap();
    assert_eq!(writer.into_bytes(), vec![0x50]);
}

#[test]
fn writer_writes_a_full_word_across_a_partial_byte() {
    let mut writer = BitWriter::new();
    writer.write_bits(1, 1).unwrap();
    writer.write_bits(0x0123_4567_89ab_cdef, 64).unwrap();
    assert_eq!(
        writer.into_bytes(),
        vec![0x80, 0x91, 0xa2, 0xb3, 0xc4, 0xd5, 0xe6, 0xf7, 0x80]
    );
}

#[test]
fn writer_puts_zeros_in_front_of_a_run_wider_than_a_word() {
    let mut writer = BitWriter::new();
    writer.write_bits(0xab, 72).unwrap();
    assert_eq!(writer.clone().into_bytes(), vec![0, 0, 0, 0, 0, 0, 0, 0, 0xab]);
    writer.write_bits(u64::MAX, 68).unwrap();
    assert_eq!(
        writer.into_bytes(),
        vec![0, 0, 0, 0, 0, 0, 0, 0, 0xab, 0x0f, 0xff, 0xff, 0xff, 0xff, 0xff, 0xff, 0xff, 0xf0]
    );
}

#[test]
fn reader_reads_what_the_writer_wrote() {
    let mut writer = BitWriter::new();
    let fields: [(u64, usize); 6] =
        [(1, 1), (0, 2), (0x2a, 7), (u64::MAX, 64), (0, 0), (0x1234_5678_9abc, 48)];
    for (value, width) in fields {
        writer.write_bits(value, width).unwrap();
    }
    let bytes = writer.into_bytes();
    assert_eq!(bytes.len(), (1 + 2 + 7 + 64 + 48 + 7) / 8);
    let mut reader = BitReader::new(&bytes);
    let mut consumed = 0;
    assert_eq!(reader.bits_consumed(), 0);
    for (value, width) in fields {
        assert_eq!(reader.read_bits(width), Ok(value));
        consumed += width;
        assert_eq!(reader.bits_consumed(), consumed);
    }
    // what is left of the last byte is zero padding
    assert_eq!(reader.read_bits(6), Ok(0));
    assert_eq!(reader.read_bits(1), Err(LotusError::UnexpectedEof));
}

#[test]
fn reader_fails_at_the_end_and_keeps_what_it_consumed() {
    let bytes = [0xab, 0xcd];
    let mut reader = BitReader::new(&bytes);
    assert_eq!(reader.read_bits(4), Ok(0xa));
    assert_eq!(reader.read_bits(13), Err(LotusError::UnexpectedEof));
    assert_eq!(reader.bits_consumed(), 16);
    assert_eq!(reader.read_bits(1), Err(LotusError::UnexpectedEof));
    assert_eq!(reader.read_bits(0), Ok(0));
    let mut empty = BitReader::new(&[]);
    assert_eq!(empty.read_bits(0), Ok(0));
    assert_eq!(empty.read_bits(1), Err(LotusError::UnexpectedEof));
    assert_eq!(empty.bits_consumed(), 0);
}

#[test]
fn reader_keeps_the_low_64_bits_of_a_longer_run() {
    let bytes = [0xff, 0x01, 0x23, 0x45, 0x67, 0x89, 0xab, 0xcd, 0xef, 0x55];
    let mut reader = BitReader::new(&bytes);
    assert_eq!(reader.read_bits(72), Ok(0x0123_4567_89ab_cdef));
    assert_eq!(reader.bits_consumed(), 72);
    assert_eq!(reader.read_bits(8), Ok(0x55));
    let many = vec![0x11u8; 40];
    let mut reader = BitReader::new(&many);
    assert_eq!(reader.read_bits(300), Ok(0x1111_1111_1111_1111));
    assert_eq!(reader.bits_consumed(), 300);
}

#[test]
fn reader_clone_reads_on_from_the_same_place() {
    let bytes = [0b1100_1010, 0x0f];
    let mut reader = BitReader::new(&bytes);
    assert_eq!(reader.read_bits(3), Ok(0b110));
    let mut copy = reader.clone();
    assert_eq!(copy.bits_consumed(), 3);
    assert_eq!(reader.read_bits(7), Ok(0b0101000));
    assert_eq!(copy.read_bits(7), Ok(0b0101000));
}
