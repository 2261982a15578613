use lotus::{
    lotus_decode_u64, lotus_encode_biguint, lotus_encode_u64, lotus_encode_value,
    lotus_encode_value_biguint, write_biguint_bits, BitWriter, LotusError, Magnitude,
};
use num_bigint::BigUint;

fn magnitude_of(value: &BigUint) -> Magnitude {
    Magnitude::from_bytes_be(&value.to_bytes_be())
}

fn big_of(value: &Magnitude) -> BigUint {
    BigUint::from_bytes_be(&value.to_bytes_be())
}

#[test]
fn encode_100_digit_number() {
    let huge_val = BigUint::parse_bytes(
        b"1355737381323775828630676731039195664907583275030601675940045606875040670309706208564942376964601277566867233121",
        10,
    )
    .unwrap();

    let encoded = lotus_encode_biguint(&magnitude_of(&huge_val), 3, 2).expect("encode 100-digit");
    println!("100-digit number encoded to {} bytes", encoded.len());

    assert!(
        encoded.len() <= 48,
        "Lotus should be competitive with LEB128 byte count"
    );
}

#[test]
fn big_encoding_of_small_values_is_the_u64_encoding() {
    let values = [0u64, 1, 2, 5, 6, 42, 255, 256, 65_535, 1 << 40, u64::MAX - 1, u64::MAX];
    for (j_bits, tiers) in [(3usize, 1usize), (3, 2), (2, 2), (8, 1)] {
        for value in values {
            let big = Magnitude::from_bytes_be(&value.to_be_bytes());
            assert_eq!(
                lotus_encode_biguint(&big, j_bits, tiers),
                lotus_encode_u64(value, j_bits, tiers)
            );
        }
    }
}

#[test]
fn big_encoding_of_two_to_the_64() {
    // 2^64 is filed under 2^64 + 1, in the bucket of width 64 that starts at
    // 2^64 - 2: payload 3 in 64 bits. The width 64 is filed under 65: width
    // 6, payload 3. Jumpstarter 5: 101 000011, then the payload.
    let value = Magnitude::power_of_two(64);
    let encoded = lotus_encode_biguint(&value, 3, 1).unwrap();
    assert_eq!(encoded, vec![0xa1, 0x80, 0, 0, 0, 0, 0, 0, 0x01, 0x80]);
}

#[test]
fn big_encoding_beyond_64_bits_has_a_wider_payload() {
    // 2^70 + 5 is filed under 2^70 + 6: width 70, payload 8 in 70 bits.
    let value = Magnitude::power_of_two(70).plus(&Magnitude::from_u8(5));
    let (payload, width) = lotus_encode_value_biguint(&value).unwrap();
    assert_eq!(width, 70);
    assert_eq!(payload.to_bytes_be(), vec![8]);
    // Width 70 is filed under 71: width 6, payload 9. Jumpstarter 5.
    let encoded = lotus_encode_biguint(&value, 3, 1).unwrap();
    // 101 001001 then 70 bits that end in 1000, then 1 bit of padding.
    assert_eq!(encoded.len(), 10);
    assert_eq!(encoded[0], 0b1010_0100);
    assert_eq!(encoded[1], 0b1000_0000);
    assert_eq!(encoded[9], 0b0001_0000);
    assert!(encoded[2..9].iter().all(|byte| *byte == 0));
}

#[test]
fn big_value_codec_agrees_with_the_u64_one() {
    for value in [0u64, 1, 2, 5, 6, 13, 14, 1000, u64::MAX] {
        let (payload, width) = lotus_encode_value(value).unwrap();
        let big = Magnitude::from_bytes_be(&value.to_be_bytes());
        let (big_payload, big_width) = lotus_encode_value_biguint(&big).unwrap();
        assert_eq!(big_width, width);
        assert_eq!(big_of(&big_payload), BigUint::from(payload));
    }
}

#[test]
fn big_encoding_rejects_what_the_u64_one_rejects() {
    let sixty = Magnitude::from_u8(60);
    assert_eq!(lotus_encode_biguint(&sixty, 1, 1), Err(LotusError::ValueTooLarge));
    assert_eq!(lotus_encode_biguint(&sixty, 0, 1), Err(LotusError::InvalidEncoding));
    assert_eq!(lotus_encode_biguint(&sixty, 9, 1), Err(LotusError::InvalidEncoding));
    assert_eq!(lotus_encode_biguint(&sixty, 3, 0), Err(LotusError::InvalidEncoding));
    // Under a jumpstarter of one bit and one tier no width above 4 can be named.
    let wide = Magnitude::power_of_two(100);
    assert_eq!(lotus_encode_biguint(&wide, 1, 1), Err(LotusError::ValueTooLarge));
}

#[test]
fn big_encoding_can_be_decoded_where_it_fits() {
    let value = 0x0123_4567_89ab_cdefu64;
    let encoded = lotus_encode_biguint(&Magnitude::from_bytes_be(&value.to_be_bytes()), 3, 2).unwrap();
    assert_eq!(lotus_decode_u64(&encoded, 3, 2).unwrap().0, value);
}

#[test]
fn write_biguint_bits_pads_with_zeros_in_front() {
    let mut writer = BitWriter::new();
    let value = Magnitude::from_bytes_be(&[0x01, 0x23]);
    write_biguint_bits(&mut writer, &value, 12).unwrap();
    assert_eq!(writer.clone().into_bytes(), vec![0x12, 0x30]);
    write_biguint_bits(&mut writer, &value, 9).unwrap();
    // 0001 0010 0011 then 1 0010 0011
    assert_eq!(writer.clone().into_bytes(), vec![0x12, 0x39, 0x18]);
    write_biguint_bits(&mut writer, &Magnitude::from_u8(0), 3).unwrap();
    write_biguint_bits(&mut writer, &Magnitude::from_u8(0), 0).unwrap();
    assert_eq!(writer.clone().into_bytes(), vec![0x12, 0x39, 0x18]);
    write_biguint_bits(&mut writer, &Magnitude::from_u8(0xff), 8).unwrap();
    assert_eq!(writer.into_bytes(), vec![0x12, 0x39, 0x18, 0xff]);
}

#[test]
fn write_biguint_bits_rejects_a_value_that_does_not_fit() {
    let mut writer = BitWriter::new();
    writer.write_bits(1, 1).unwrap();
    let value = Magnitude::from_bytes_be(&[0x01, 0x23]);
    assert_eq!(
        write_biguint_bits(&mut writer, &value, 8),
        Err(LotusError::InvalidEncoding)
    );
    assert_eq!(writer.into_bytes(), vec![0x80]);
}

#[test]
fn magnitude_arithmetic_is_that_of_biguint() {
    let left = BigUint::parse_bytes(b"340282366920938463463374607431768211455", 10).unwrap();
    let right = BigUint::parse_bytes(b"18446744073709551629", 10).unwrap();
    let (a, b) = (magnitude_of(&left), magnitude_of(&right));
    assert_eq!(big_of(&a.plus(&b)), &left + &right);
    assert_eq!(big_of(&a.minus(&b)), &left - &right);
    assert_eq!(big_of(&a.minus(&a)), BigUint::from(0u8));
    assert!(b.at_most(&a));
    assert!(!a.at_most(&b));
    assert!(a.at_most(&a));
    assert_eq!(a.bits(), 128);
    assert_eq!(b.bits(), 65);
    assert_eq!(Magnitude::from_u8(0).bits(), 0);
    assert_eq!(Magnitude::from_u8(1).bits(), 1);
    assert_eq!(big_of(&Magnitude::power_of_two(0)), BigUint::from(1u8));
    assert_eq!(big_of(&Magnitude::power_of_two(9)), BigUint::from(512u32));
    assert_eq!(Magnitude::power_of_two(130).bits(), 131);
}

#[test]
fn magnitude_bytes_are_in_the_shortest_form() {
    assert_eq!(Magnitude::from_bytes_be(&[0, 0, 1, 2]).to_bytes_be(), vec![1, 2]);
    assert_eq!(Magnitude::from_bytes_be(&[]).to_bytes_be(), vec![0]);
    assert_eq!(Magnitude::from_bytes_be(&[0, 0]).to_bytes_be(), vec![0]);
    assert_eq!(Magnitude::from_u8(7).to_bytes_be(), vec![7]);
    assert_eq!(Magnitude::power_of_two(8).to_bytes_be(), vec![1, 0]);
    let copy = Magnitude::from_bytes_be(&[9, 8, 7]).clone();
    assert_eq!(copy.to_bytes_be(), vec![9, 8, 7]);
}
