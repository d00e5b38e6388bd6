use dope::decimal::{format_integer, push_digits};

#[test]
fn zero_is_one_digit() {
    assert_eq!(format_integer(0), b"0".to_vec());
}

#[test]
fn positive_integers() {
    assert_eq!(format_integer(7), b"7".to_vec());
    assert_eq!(format_integer(10), b"10".to_vec());
    assert_eq!(format_integer(1234567890), b"1234567890".to_vec());
}

#[test]
fn negative_integers() {
    assert_eq!(format_integer(-1), b"-1".to_vec());
    assert_eq!(format_integer(-100), b"-100".to_vec());
}

#[test]
fn the_two_ends_of_the_range() {
    assert_eq!(format_integer(i64::MAX), b"9223372036854775807".to_vec());
    assert_eq!(format_integer(i64::MIN), b"-9223372036854775808".to_vec());
}

#[test]
fn formatting_agrees_with_std() {
    for n in [-1000i64, -99, -10, -9, 0, 9, 10, 99, 100, 101, 4096, 65535] {
        assert_eq!(format_integer(n), n.to_string().into_bytes());
    }
}

#[test]
fn digits_are_appended() {
    let mut buf = b"x=".to_vec();
    push_digits(&mut buf, 18446744073709551615);
    assert_eq!(buf, b"x=18446744073709551615".to_vec());
}
