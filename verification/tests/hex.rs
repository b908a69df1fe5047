use brutus::hex::{decode_hexbyte, decode_hexbytes, trim_trailing_blanks, HexError};

#[test]
#[allow(non_snake_case)]
fn decode_A() {
    assert_eq!(decode_hexbyte(0x41).unwrap(), 0xa);
}

#[test]
fn decode_badbyte() {
    let result = match decode_hexbyte(0x12) {
        Ok(val) => val,
        Err(_) => 100,
    };
    assert_eq!(result, 100);
}

#[test]
#[allow(non_snake_case)]
fn decode_AAAA() {
    let bytes = String::from("41414141");
    let msg = String::from("AAAA");
    let decoded = decode_hexbytes(&bytes.into_bytes()).unwrap();
    assert_eq!(decoded, msg.into_bytes());
}

#[test]
fn decode_adele() {
    let bytes = String::from("546869732069732074686520656e642c20686f6c6420796f75722062726561746820616e6420636f756e7420746f2031302e");
    let msg = String::from("This is the end, hold your breath and count to 10.");
    let decoded = decode_hexbytes(&bytes.into_bytes()).unwrap();
    assert_eq!(decoded, msg.into_bytes());
}

#[test]
fn decode_every_digit() {
    let digits = b"0123456789";
    for (value, &digit) in digits.iter().enumerate() {
        assert_eq!(decode_hexbyte(digit), Ok(value as u8));
    }
    let upper = b"ABCDEF";
    for (offset, &digit) in upper.iter().enumerate() {
        assert_eq!(decode_hexbyte(digit), Ok(10 + offset as u8));
    }
    let lower = b"abcdef";
    for (offset, &digit) in lower.iter().enumerate() {
        assert_eq!(decode_hexbyte(digit), Ok(10 + offset as u8));
    }
}

#[test]
fn decode_rejects_every_other_byte() {
    let mut accepted = 0;
    for byte in 0..=255u8 {
        let is_digit = byte.is_ascii_digit()
            || (b'A'..=b'F').contains(&byte)
            || (b'a'..=b'f').contains(&byte);
        match decode_hexbyte(byte) {
            Ok(value) => {
                assert!(is_digit);
                assert!(value <= 15);
                accepted += 1;
            }
            Err(error) => {
                assert!(!is_digit);
                assert_eq!(error, HexError::InvalidDigit(0));
            }
        }
    }
    assert_eq!(accepted, 22);
}

#[test]
fn decode_rejects_neighbours_of_the_digits() {
    for byte in [0x2fu8, 0x3a, 0x40, 0x47, 0x60, 0x67] {
        assert_eq!(decode_hexbyte(byte), Err(HexError::InvalidDigit(0)));
    }
}

#[test]
fn decode_rejects_carriage_return() {
    assert_eq!(decode_hexbyte(0x0d), Err(HexError::InvalidDigit(0)));
    assert_eq!(
        decode_hexbytes(&b"4141\r\n".to_vec()),
        Err(HexError::InvalidDigit(4))
    );
}

#[test]
fn decode_empty_text() {
    assert_eq!(decode_hexbytes(&Vec::new()), Ok(Vec::new()));
}

#[test]
fn decode_mixed_case() {
    assert_eq!(
        decode_hexbytes(&b"00ff7Fa0De".to_vec()),
        Ok(vec![0x00, 0xff, 0x7f, 0xa0, 0xde])
    );
}

#[test]
fn decode_high_digit_comes_first() {
    assert_eq!(decode_hexbytes(&b"1f".to_vec()), Ok(vec![0x1f]));
    assert_eq!(decode_hexbytes(&b"f1".to_vec()), Ok(vec![0xf1]));
}

#[test]
fn decode_halves_the_length() {
    let text = b"000102030405060708090a0b0c0d0e0f".to_vec();
    let decoded = decode_hexbytes(&text).unwrap();
    assert_eq!(decoded.len(), text.len() / 2);
    assert_eq!(decoded, (0u8..16).collect::<Vec<u8>>());
}

#[test]
fn decode_odd_length() {
    assert_eq!(decode_hexbytes(&b"414".to_vec()), Err(HexError::OddLength));
    assert_eq!(decode_hexbytes(&b"4".to_vec()), Err(HexError::OddLength));
}

#[test]
fn decode_odd_length_goes_before_bad_digits() {
    assert_eq!(decode_hexbytes(&b"4z4".to_vec()), Err(HexError::OddLength));
    assert_eq!(decode_hexbytes(&b"\n".to_vec()), Err(HexError::OddLength));
}

#[test]
fn decode_reports_the_first_bad_digit() {
    assert_eq!(
        decode_hexbytes(&b"41g1".to_vec()),
        Err(HexError::InvalidDigit(2))
    );
    assert_eq!(
        decode_hexbytes(&b"414x".to_vec()),
        Err(HexError::InvalidDigit(3))
    );
    assert_eq!(
        decode_hexbytes(&b"x1y1".to_vec()),
        Err(HexError::InvalidDigit(0))
    );
    assert_eq!(
        decode_hexbytes(&b"4!4?".to_vec()),
        Err(HexError::InvalidDigit(1))
    );
}

#[test]
fn trim_drops_line_endings() {
    assert_eq!(trim_trailing_blanks(&b"4141\n".to_vec()), b"4141".to_vec());
    assert_eq!(trim_trailing_blanks(&b"4141\r\n".to_vec()), b"4141".to_vec());
    assert_eq!(trim_trailing_blanks(&b"4141 \t\r\n \n".to_vec()), b"4141".to_vec());
}

#[test]
fn trim_keeps_everything_else() {
    assert_eq!(trim_trailing_blanks(&b"4141".to_vec()), b"4141".to_vec());
    assert_eq!(trim_trailing_blanks(&b" 41 41\n".to_vec()), b" 41 41".to_vec());
    assert_eq!(trim_trailing_blanks(&b"41\x0c".to_vec()), b"41\x0c".to_vec());
    assert_eq!(trim_trailing_blanks(&b"\n\n".to_vec()), Vec::<u8>::new());
    assert_eq!(trim_trailing_blanks(&Vec::new()), Vec::<u8>::new());
}

#[test]
fn trim_then_decode() {
    let text = trim_trailing_blanks(&b"41414141\r\n".to_vec());
    assert_eq!(decode_hexbytes(&text), Ok(b"AAAA".to_vec()));
}
