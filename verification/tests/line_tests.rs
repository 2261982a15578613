use lotus::{lotus_decode_line, lotus_encode_line, LotusError};

#[test]
fn a_line_with_a_number_is_encoded() {
    assert_eq!(lotus_encode_line("42", 2, 1), Ok("8340".to_string()));
    assert_eq!(lotus_encode_line("  42\t", 2, 1), Ok("8340".to_string()));
    assert_eq!(lotus_encode_line("+42", 2, 1), Ok("8340".to_string()));
    assert_eq!(lotus_encode_line("0042", 2, 1), Ok("8340".to_string()));
    assert_eq!(lotus_encode_line("0", 2, 1), Ok("48".to_string()));
    assert_eq!(
        lotus_encode_line("18446744073709551615", 3, 1),
        Ok("a1800000000000000100".to_string())
    );
}

#[test]
fn a_line_without_a_number_is_an_invalid_encoding() {
    for line in ["", "  ", "+", "-1", "4 2", "4_2", "0x2a", "42.0", "forty-two", "18446744073709551616"] {
        assert_eq!(lotus_encode_line(line, 2, 1), Err(LotusError::InvalidEncoding));
    }
}

#[test]
fn a_line_fails_as_the_encoder_does() {
    assert_eq!(lotus_encode_line("60", 1, 1), Err(LotusError::ValueTooLarge));
    assert_eq!(lotus_encode_line("60", 0, 1), Err(LotusError::InvalidEncoding));
}

#[test]
fn a_line_with_an_encoding_is_decoded() {
    assert_eq!(lotus_decode_line("8340", 2, 1), Ok((42, 10)));
    assert_eq!(lotus_decode_line(" 8340 \r", 2, 1), Ok((42, 10)));
    assert_eq!(lotus_decode_line("A1800000000000000100", 3, 1), Ok((u64::MAX, 73)));
    assert_eq!(lotus_decode_line("83 40", 2, 1), Err(LotusError::InvalidEncoding));
    assert_eq!(lotus_decode_line("834", 2, 1), Err(LotusError::InvalidEncoding));
    assert_eq!(lotus_decode_line("  ", 2, 1), Err(LotusError::UnexpectedEof));
    for value in [0u64, 1, 77, 1 << 33] {
        let line = format!("  {}  ", value);
        let text = lotus_encode_line(&line, 3, 2).unwrap();
        assert_eq!(lotus_decode_line(&text, 3, 2).unwrap().0, value);
    }
}
