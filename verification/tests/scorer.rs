use brutus::scorer::{score_text, ScoreError};

#[test]
fn score_of_empty_text() {
    assert_eq!(score_text(Vec::new()), Err(ScoreError::EmptyInput));
}

#[test]
fn score_of_single_bytes() {
    for byte in 0..=255u8 {
        let expected = if b"etaoin".contains(&byte) {
            20
        } else if byte.is_ascii_lowercase() {
            10
        } else if byte == b' ' {
            0
        } else {
            -10
        };
        assert_eq!(score_text(vec![byte]), Ok(expected));
    }
}

#[test]
fn score_of_frequent_letters() {
    assert_eq!(score_text(b"etaoin".to_vec()), Ok(20));
    assert_eq!(score_text(b"ETAOIN".to_vec()), Ok(-10));
}

#[test]
fn score_of_words() {
    assert_eq!(score_text(b"hello world".to_vec()), Ok(11));
    assert_eq!(score_text(b"Hello, World!".to_vec()), Ok(5));
    assert_eq!(score_text(b"Attack at dawn".to_vec()), Ok(12));
    assert_eq!(
        score_text(b"This is the end, hold your breath and count to 10.".to_vec()),
        Ok(9)
    );
}

#[test]
fn score_of_spaces() {
    for len in [1usize, 2, 7, 100] {
        assert_eq!(score_text(vec![b' '; len]), Ok(0));
    }
}

#[test]
fn score_rounds_towards_zero() {
    assert_eq!(score_text(b"eee!".to_vec()), Ok(12));
    assert_eq!(score_text(b"! ".to_vec()), Ok(-5));
    assert_eq!(score_text(b"!  ".to_vec()), Ok(-3));
    assert_eq!(score_text(b"b  ".to_vec()), Ok(3));
}

#[test]
fn score_of_doubled_text() {
    for text in [
        b"e".to_vec(),
        b"!  ".to_vec(),
        b"eee!".to_vec(),
        b"Hello, World!".to_vec(),
        b"Attack at dawn".to_vec(),
    ] {
        let mut doubled = text.clone();
        doubled.extend_from_slice(&text);
        assert_eq!(score_text(doubled), score_text(text));
    }
}

#[test]
fn score_stays_between_bounds() {
    assert_eq!(score_text(vec![0u8; 4096]), Ok(-10));
    assert_eq!(score_text(vec![b'e'; 4096]), Ok(20));
}
