use aoc_days::labs::{count_e_acute, sum_digits};

#[test]
fn e_acute_is_counted_by_its_encoding() {
    assert_eq!(count_e_acute(Some("été".as_bytes())), 2);
    assert_eq!(count_e_acute(Some("e\u{301}".as_bytes())), 0);
    assert_eq!(count_e_acute(Some(&[0xC3, 0xA9, 0xFF, 0xC3, 0xA9])), 2);
    assert_eq!(count_e_acute(Some(b"")), 0);
    assert_eq!(count_e_acute(None), -1);
}

#[test]
fn digits_are_summed_byte_by_byte() {
    assert_eq!(sum_digits(Some(b"a1b2c3")), 6);
    assert_eq!(sum_digits(Some("9é9".as_bytes())), 18);
    assert_eq!(sum_digits(Some(b"")), 0);
    assert_eq!(sum_digits(None), -1);
}
