use brutus::cipher::single_key_xor;

#[test]
fn xor_each_byte_with_the_key() {
    assert_eq!(
        single_key_xor(&vec![0x00, 0xff, 0x0f, 0x42], 0xf0),
        vec![0xf0, 0x0f, 0xff, 0xb2]
    );
}

#[test]
fn xor_attack_at_dawn() {
    let expected = vec![
        0x03, 0x36, 0x36, 0x23, 0x21, 0x29, 0x62, 0x23, 0x36, 0x62, 0x26, 0x23, 0x35, 0x2c,
    ];
    assert_eq!(single_key_xor(&b"Attack at dawn".to_vec(), 0x42), expected);
}

#[test]
fn xor_keeps_the_length() {
    assert_eq!(single_key_xor(&Vec::new(), 0x55), Vec::<u8>::new());
    assert_eq!(single_key_xor(&vec![0u8; 1000], 0x55), vec![0x55u8; 1000]);
}

#[test]
fn xor_with_zero_changes_nothing() {
    let data = b"plain".to_vec();
    assert_eq!(single_key_xor(&data, 0), data);
}

#[test]
fn xor_twice_gives_the_input_back() {
    let data: Vec<u8> = (0..=255u8).collect();
    for key in 0..=255u8 {
        let once = single_key_xor(&data, key);
        if key != 0 {
            assert_ne!(once, data);
        }
        assert_eq!(single_key_xor(&once, key), data);
    }
}
