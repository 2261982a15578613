use lotus::{
    lotus_decode_hex, lotus_decode_u64, lotus_encode_header, lotus_encode_hex, lotus_encode_small,
    lotus_encode_u64, lotus_encode_value, lotus_encoded_bits, max_width_for_config, LotusError,
    LOTUS_J2D1, LOTUS_J3D1,
};

#[test]
fn edge_cases() {
    for value in [0u64, 1, 2, 4_096, 8_192] {
        let (j_bits, tiers) = LOTUS_J3D1;
        let encoded = lotus_encode_u64(value, j_bits, tiers).unwrap();
        let (decoded, _) = lotus_decode_u64(&encoded, j_bits, tiers).unwrap();
        assert_eq!(decoded, value);
    }
}

#[test]
fn lotus_example_bit_length() {
    let (j_bits, tiers) = (3, 2);
    let encoded = lotus_encode_u64(42, j_bits, tiers).unwrap();
    let (decoded, total_bits) = lotus_decode_u64(&encoded, j_bits, tiers).unwrap();
    assert_eq!(decoded, 42);
    assert_eq!(total_bits, 13);
}

#[test]
fn lotus_j2d1_bit_length() {
    let (j_bits, tiers) = LOTUS_J2D1;
    let encoded = lotus_encode_u64(42, j_bits, tiers).unwrap();
    let (decoded, total_bits) = lotus_decode_u64(&encoded, j_bits, tiers).unwrap();
    assert_eq!(decoded, 42);
    assert_eq!(total_bits, 10);
}

#[test]
fn max_value_round_trip() {
    let (j_bits, tiers) = LOTUS_J3D1;
    let encoded = lotus_encode_u64(u64::MAX, j_bits, tiers).unwrap();
    let (decoded, _) = lotus_decode_u64(&encoded, j_bits, tiers).unwrap();
    assert_eq!(decoded, u64::MAX);
}

#[test]
fn empty_decode_returns_eof() {
    let (j_bits, tiers) = LOTUS_J3D1;
    let err = lotus_decode_u64(&[], j_bits, tiers).unwrap_err();
    assert_eq!(err, LotusError::UnexpectedEof);
}

#[test]
fn known_encodings() {
    // 42 is filed under 43: width 5, payload 13. Width 5 is filed under 6:
    // width 3, payload 0. Jumpstarter 3 - 1 = 2 in two bits: 10 000 01101.
    assert_eq!(lotus_encode_u64(42, 2, 1), Ok(vec![0x83, 0x40]));
    // One tier more: width 3 is filed under 4: width 2, payload 2.
    // Jumpstarter 1 in three bits: 001 10 000 01101.
    assert_eq!(lotus_encode_u64(42, 3, 2), Ok(vec![0x30, 0x68]));
    // 0 is filed under 1: width 1, payload 1. Width 1 is filed under 2:
    // width 2, payload 0. Jumpstarter 1: 01 00 1.
    assert_eq!(lotus_encode_u64(0, 2, 1), Ok(vec![0x48]));
    assert_eq!(lotus_decode_u64(&[0x48], 2, 1), Ok((0, 5)));
    assert_eq!(lotus_decode_u64(&[0x83, 0x40], 2, 1), Ok((42, 10)));
    assert_eq!(lotus_decode_u64(&[0x30, 0x68], 3, 2), Ok((42, 13)));
}

#[test]
fn round_trip_over_configurations() {
    let values = [
        0u64, 1, 2, 3, 4, 5, 6, 13, 14, 29, 30, 60, 61, 62, 127, 128, 1000, 65_535, 65_536,
        (1 << 28) - 3, (1 << 29) - 4, (1 << 29) - 3, 1 << 32, (1 << 40) - 1, 1 << 63,
        u64::MAX - 3, u64::MAX - 2, u64::MAX - 1, u64::MAX,
    ];
    for j_bits in 1..=8usize {
        for tiers in 1..=5usize {
            for value in values {
                match lotus_encode_u64(value, j_bits, tiers) {
                    Ok(encoded) => {
                        let (decoded, bits) = lotus_decode_u64(&encoded, j_bits, tiers).unwrap();
                        assert_eq!(decoded, value);
                        assert!(bits > 0);
                        assert_eq!(encoded.len(), (bits + 7) / 8);
                        assert_eq!(lotus_encoded_bits(value, j_bits, tiers), Ok(bits));
                    }
                    Err(error) => {
                        assert_eq!(error, LotusError::ValueTooLarge);
                        let (_, width) = lotus_encode_value(value).unwrap();
                        assert!(width as u128 > max_width_for_config(j_bits, tiers));
                        assert_eq!(lotus_encoded_bits(value, j_bits, tiers), Err(error));
                    }
                }
            }
        }
    }
}

#[test]
fn encoding_is_canonical() {
    for value in [0u64, 7, 42, 1 << 20, u64::MAX] {
        assert_eq!(lotus_encode_u64(value, 3, 1), lotus_encode_u64(value, 3, 1));
    }
    let mut seen: Vec<Vec<u8>> = Vec::new();
    for value in 0..500u64 {
        let encoded = lotus_encode_u64(value, 3, 1).unwrap();
        assert!(!seen.contains(&encoded));
        seen.push(encoded);
    }
}

#[test]
fn the_bound_decides_what_is_encoded() {
    // one bit of jumpstarter and one tier: widths up to 4, values up to 28
    assert!(lotus_encode_u64(28, 1, 1).is_ok());
    assert_eq!(lotus_encode_u64(29, 1, 1), Err(LotusError::ValueTooLarge));
    assert_eq!(lotus_encode_u64(60, 1, 1), Err(LotusError::ValueTooLarge));
    // two bits and one tier: widths up to 28
    assert!(lotus_encode_u64((1 << 29) - 4, 2, 1).is_ok());
    assert_eq!(lotus_encode_u64((1 << 29) - 3, 2, 1), Err(LotusError::ValueTooLarge));
    assert!(lotus_encode_u64(u64::MAX, 3, 1).is_ok());
}

#[test]
fn invalid_configurations() {
    for (j_bits, tiers) in [(0usize, 1usize), (9, 1), (3, 0), (0, 0), (usize::MAX, 1)] {
        assert_eq!(lotus_encode_u64(5, j_bits, tiers), Err(LotusError::InvalidEncoding));
        assert_eq!(lotus_decode_u64(&[0x48], j_bits, tiers), Err(LotusError::InvalidEncoding));
        assert_eq!(lotus_decode_u64(&[], j_bits, tiers), Err(LotusError::InvalidEncoding));
        assert!(lotus_encode_header(5, j_bits, tiers).is_err());
    }
}

#[test]
fn decode_failures() {
    // width 1 with payload 0 stands for no value
    assert_eq!(lotus_decode_u64(&[0x00], 1, 1), Err(LotusError::InvalidEncoding));
    // width 1 with payload 1 names the width 0
    assert_eq!(lotus_decode_u64(&[0x40], 1, 1), Err(LotusError::InvalidEncoding));
    assert_eq!(lotus_decode_u64(&[0x20, 0xff], 2, 2), Err(LotusError::InvalidEncoding));
    // the input ends inside the payload
    assert_eq!(lotus_decode_u64(&[0x83], 2, 1), Err(LotusError::UnexpectedEof));
    // a payload of 64 bits above the largest value
    let mut bytes = lotus_encode_u64(u64::MAX, 3, 1).unwrap();
    let last = bytes.len() - 1;
    assert_eq!(bytes[last - 1..], [0x01, 0x00]);
    bytes[last - 1] = 0x01;
    bytes[last] = 0x80;
    assert_eq!(lotus_decode_u64(&bytes, 3, 1), Err(LotusError::ValueTooLarge));
    // a jumpstarter of eight bits can name the width 256; the field is read
    // before it is found too wide
    let mut wide = vec![0xffu8; 1];
    assert_eq!(lotus_decode_u64(&wide, 8, 1), Err(LotusError::UnexpectedEof));
    wide.extend(vec![0u8; 32]);
    assert_eq!(lotus_decode_u64(&wide, 8, 1), Err(LotusError::ValueTooLarge));
}

#[test]
fn decode_leaves_following_bytes_alone() {
    let mut stream = lotus_encode_u64(1_000_000, 3, 1).unwrap();
    let first_len = stream.len();
    let (_, first_bits) = lotus_decode_u64(&stream, 3, 1).unwrap();
    stream.extend(lotus_encode_u64(7, 3, 1).unwrap());
    stream.push(0xff);
    assert_eq!(lotus_decode_u64(&stream, 3, 1), Ok((1_000_000, first_bits)));
    assert_eq!(lotus_decode_u64(&stream[first_len..], 3, 1).unwrap().0, 7);
}

#[test]
fn small_values_take_one_byte() {
    assert_eq!(lotus_encode_small(0), Ok(vec![0]));
    assert_eq!(lotus_encode_small(5), Ok(vec![5]));
    assert_eq!(lotus_encode_small(127), Ok(vec![127]));
    assert_eq!(lotus_encode_small(128), lotus_encode_u64(128, 2, 1));
    assert_eq!(lotus_encode_small(1_000_000), lotus_encode_u64(1_000_000, 2, 1));
    assert_eq!(lotus_encode_small(u64::MAX), Err(LotusError::ValueTooLarge));
}

#[test]
fn encoded_bit_lengths() {
    assert_eq!(lotus_encoded_bits(42, 3, 2), Ok(13));
    assert_eq!(lotus_encoded_bits(42, 2, 1), Ok(10));
    assert_eq!(lotus_encoded_bits(0, 2, 1), Ok(5));
    assert_eq!(lotus_encoded_bits(u64::MAX, 3, 1), Ok(3 + 6 + 64));
    assert_eq!(lotus_encoded_bits(60, 1, 1), Err(LotusError::ValueTooLarge));
    assert_eq!(lotus_encoded_bits(60, 0, 1), Err(LotusError::InvalidEncoding));
}

#[test]
fn header_names_the_payload_width() {
    // width 5 under two bits and one tier: jumpstarter 10, tier 000
    assert_eq!(lotus_encode_header(5, 2, 1).unwrap().into_bytes(), vec![0x80]);
    let mut writer = lotus_encode_header(5, 3, 2).unwrap();
    writer.write_bits(13, 5).unwrap();
    assert_eq!(writer.into_bytes(), vec![0x30, 0x68]);
    assert_eq!(lotus_encode_header(5, 1, 1).err(), Some(LotusError::ValueTooLarge));
    assert!(lotus_encode_header(4, 1, 1).is_ok());
    assert!(lotus_encode_header(508, 3, 1).is_ok());
    assert_eq!(lotus_encode_header(509, 3, 1).err(), Some(LotusError::ValueTooLarge));
}

#[test]
fn hex_text_of_encodings() {
    assert_eq!(lotus_encode_hex(42, 2, 1), Ok("8340".to_string()));
    assert_eq!(lotus_encode_hex(u64::MAX, 3, 1), Ok("a1800000000000000100".to_string()));
    assert_eq!(lotus_encode_hex(60, 1, 1), Err(LotusError::ValueTooLarge));
    assert_eq!(lotus_decode_hex("8340", 2, 1), Ok((42, 10)));
    assert_eq!(lotus_decode_hex("a1800000000000000100", 3, 1), Ok((u64::MAX, 73)));
    assert_eq!(lotus_decode_hex("A1800000000000000100", 3, 1), Ok((u64::MAX, 73)));
    assert_eq!(lotus_decode_hex("a1800000000000000100ff", 3, 1), Ok((u64::MAX, 73)));
    // 1000000 is filed under 1000001: width 19, payload 475715. Width 19 is
    // filed under 20: width 4, payload 6. Jumpstarter 3.
    assert_eq!(lotus_encode_hex(1_000_000, 3, 1).unwrap(), "6dd090c0");
    assert_eq!(lotus_decode_hex("6Dd090C0", 3, 1), Ok((1_000_000, 26)));
    assert_eq!(lotus_decode_hex("834", 2, 1), Err(LotusError::InvalidEncoding));
    assert_eq!(lotus_decode_hex("83 40", 2, 1), Err(LotusError::InvalidEncoding));
    assert_eq!(lotus_decode_hex("8g40", 2, 1), Err(LotusError::InvalidEncoding));
    assert_eq!(lotus_decode_hex("\u{e9}340", 2, 1), Err(LotusError::InvalidEncoding));
    assert_eq!(lotus_decode_hex("", 2, 1), Err(LotusError::UnexpectedEof));
    assert_eq!(lotus_decode_hex("83", 2, 1), Err(LotusError::UnexpectedEof));
    assert_eq!(lotus_decode_hex("8340", 0, 1), Err(LotusError::InvalidEncoding));
    for value in [0u64, 9, 255, 4096, 1 << 50] {
        let text = lotus_encode_hex(value, 3, 2).unwrap();
        assert_eq!(text, hex::encode(lotus_encode_u64(value, 3, 2).unwrap()));
        assert_eq!(lotus_decode_hex(&text, 3, 2).unwrap().0, value);
    }
}
