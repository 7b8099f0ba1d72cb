use nistrs::{BitsData, TestError};

fn bits_of(data: &BitsData) -> Vec<bool> {
    data.iter().copied().collect()
}

#[test]
fn from_binary() {
    let result = BitsData::from_binary(vec![0x12, 0x21]);
    assert_eq!(
        bits_of(&result),
        vec![
            false, false, false, true, false, false, true, false, false, false, true, false, false,
            false, false, true
        ]
    );
}

#[test]
fn from_text() {
    let result = BitsData::from_text("0010010001010001".to_string()).unwrap();
    assert_eq!(
        bits_of(&result),
        vec![
            false, false, true, false, false, true, false, false, false, true, false, true, false,
            false, false, true
        ]
    );
}

#[test]
fn from_error_text() {
    let result = BitsData::from_text("0010020001010001".to_string());
    assert_eq!(result.err(), Some(TestError::InvalidInput));
}

#[test]
fn from_binary_counts_ones_and_length() {
    let bytes = vec![0xffu8, 0x00, 0x0f, 0x81, 0x7e];
    let data = BitsData::from_binary(bytes.clone());
    assert_eq!(data.len(), 40);
    let popcount: u32 = bytes.iter().map(|b| b.count_ones()).sum();
    assert_eq!(data.ones(), popcount as usize);
    assert_eq!(data.ones(), 8 + 0 + 4 + 2 + 6);
    assert!(!data.is_empty());
    assert!(data.get(0));
    assert!(!data.get(8));
    assert!(data.get(24) && data.get(31) && !data.get(25));
}

#[test]
fn from_binary_empty() {
    let data = BitsData::from_binary(Vec::new());
    assert_eq!(data.len(), 0);
    assert_eq!(data.ones(), 0);
    assert!(data.is_empty());
}

#[test]
fn from_text_trims_each_line() {
    let data = BitsData::from_text("  0101 \n\t11\r\n\n 0 ".to_string()).unwrap();
    assert_eq!(bits_of(&data), vec![false, true, false, true, true, true, false]);
    assert_eq!(data.ones(), 4);
}

#[test]
fn from_text_refuses_blank_inside_a_line() {
    let result = BitsData::from_text("01 10".to_string());
    assert_eq!(result.err(), Some(TestError::InvalidInput));
    let unicode_space = BitsData::from_text("01\u{3000}10".to_string());
    assert_eq!(unicode_space.err(), Some(TestError::InvalidInput));
}

#[test]
fn from_text_accepts_unicode_blanks_at_line_ends() {
    let data = BitsData::from_text("\u{a0}10\u{2003}\n\u{3000}01".to_string()).unwrap();
    assert_eq!(bits_of(&data), vec![true, false, false, true]);
}

#[test]
fn from_text_refuses_other_characters() {
    assert_eq!(BitsData::from_text("0a1".to_string()).err(), Some(TestError::InvalidInput));
    assert_eq!(BitsData::from_text("0120".to_string()).err(), Some(TestError::InvalidInput));
}

#[test]
fn from_text_empty() {
    let data = BitsData::from_text(String::new()).unwrap();
    assert!(data.is_empty());
}

#[test]
fn range_and_get() {
    let data = BitsData::from_text("0010110".to_string()).unwrap();
    assert_eq!(data.range(2, 5), &[true, false, true]);
    assert_eq!(data.range(3, 3), &[] as &[bool]);
    assert!(data.get(4) && !data.get(6));
}
