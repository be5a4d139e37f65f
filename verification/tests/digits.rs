use vehicle::digits::{append_digit, to_digit, Number};

fn number(digits: &str) -> Number {
    Number { digits: digits.chars().collect() }
}

#[test]
fn the_ten_digits() {
    let digits = ['0', '1', '2', '3', '4', '5', '6', '7', '8', '9'];
    for (value, digit) in digits.iter().enumerate() {
        assert_eq!(to_digit(*digit), Some(value as u8));
    }
}

#[test]
fn neighbours_of_the_digits() {
    assert_eq!(to_digit('/'), None);
    assert_eq!(to_digit(':'), None);
    assert_eq!(to_digit('R'), None);
    assert_eq!(to_digit(' '), None);
    assert_eq!(to_digit('\0'), None);
    assert_eq!(to_digit(char::MAX), None);
}

#[test]
fn digits_of_other_scripts() {
    assert_eq!(to_digit('٣'), None);
    assert_eq!(to_digit('３'), None);
    assert_eq!(to_digit('³'), None);
    assert_eq!(to_digit('Ⅷ'), None);
}

#[test]
fn only_ascii_digits_are_digits() {
    let mut count = 0;
    for code in 0..=0x10FFFFu32 {
        if let Some(c) = char::from_u32(code) {
            let expected = if c.is_ascii_digit() { Some((code - 48) as u8) } else { None };
            assert_eq!(to_digit(c), expected);
            count += 1;
        }
    }
    assert_eq!(count, 0x110000 - 0x800);
}

#[test]
fn appending_digits() {
    assert_eq!(append_digit(Some(0), 0), Some(0));
    assert_eq!(append_digit(Some(0), 7), Some(7));
    assert_eq!(append_digit(Some(27), 5), Some(275));
    assert_eq!(append_digit(Some(9), 9), Some(99));
}

#[test]
fn appending_up_to_the_limit() {
    assert_eq!(append_digit(Some(1844674407370955161), 5), Some(u64::MAX));
    assert_eq!(append_digit(Some(1844674407370955161), 6), None);
    assert_eq!(append_digit(Some(1844674407370955162), 0), None);
    assert_eq!(append_digit(Some(u64::MAX), 0), None);
    assert_eq!(append_digit(Some(u64::MAX / 10), 5), Some(u64::MAX));
}

#[test]
fn too_large_stays_too_large() {
    for digit in 0..=9 {
        assert_eq!(append_digit(None, digit), None);
    }
}

#[test]
fn values_of_numbers() {
    assert_eq!(number("").to_u64(), Some(0));
    assert_eq!(number("0").to_u64(), Some(0));
    assert_eq!(number("275").to_u64(), Some(275));
    assert_eq!(number("10").to_u64(), Some(10));
    assert_eq!(number("1000").to_u64(), Some(1000));
    assert_eq!(number("1234567890").to_u64(), Some(1234567890));
    assert_eq!(number("9876543210").to_u64(), Some(9876543210));
}

#[test]
fn leading_zeros_do_not_count() {
    assert_eq!(number("0275").to_u64(), Some(275));
    assert_eq!(number("0000000000000000000000000275").to_u64(), Some(275));
    assert_ne!(number("0275"), number("275"));
}

#[test]
fn values_up_to_the_limit() {
    assert_eq!(number("9999999999999999999").to_u64(), Some(9999999999999999999));
    assert_eq!(number("18446744073709551615").to_u64(), Some(u64::MAX));
    assert_eq!(number("018446744073709551615").to_u64(), Some(u64::MAX));
    assert_eq!(number("18446744073709551616").to_u64(), None);
    assert_eq!(number("99999999999999999999").to_u64(), None);
    assert_eq!(number("100000000000000000000000000000000000000000000").to_u64(), None);
}

#[test]
fn what_is_not_written_with_digits_has_no_value() {
    assert_eq!(number("27x").to_u64(), None);
    assert_eq!(number("-27").to_u64(), None);
    assert_eq!(number("2.5").to_u64(), None);
    assert_eq!(number("٢٧٥").to_u64(), None);
    assert_eq!(number("184467440737095516160x").to_u64(), None);
}
