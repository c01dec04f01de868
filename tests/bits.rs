use flow::{byte_to_bools, convert_bits_to_bools, hex_to_bools};

#[test]
fn byte_to_bool() {
    let byte = 0xaa;
    let expected = vec![false, true, false, true, false, true, false, true];
    let actual = byte_to_bools(byte);
    assert_eq!(actual, expected);
}

#[test]
fn bits_least_significant_first() {
    assert_eq!(convert_bits_to_bools(5, 4), vec![true, false, true, false]);
    assert_eq!(convert_bits_to_bools(6, 2), vec![false, true]);
    assert_eq!(convert_bits_to_bools(1, 0), Vec::<bool>::new());
}

#[test]
fn bits_beyond_the_word_are_false() {
    let bits = convert_bits_to_bools(u64::MAX, 66);
    assert_eq!(bits.len(), 66);
    assert!(bits[..64].iter().all(|b| *b));
    assert!(!bits[64] && !bits[65]);
}

#[test]
fn hex_text_to_bools() {
    assert_eq!(
        hex_to_bools("01aF").unwrap(),
        vec![
            true, false, false, false, false, false, false, false, true, true, true, true, false,
            true, false, true
        ]
    );
    assert_eq!(hex_to_bools("").unwrap(), Vec::<bool>::new());
}

#[test]
fn hex_text_rejected() {
    assert!(hex_to_bools("abc").is_none());
    assert!(hex_to_bools("0g").is_none());
    assert!(hex_to_bools("+1").is_none());
}
