use dope::print::print_line;
use dope::value::{Opaque, ReprError, Value};

#[test]
fn two_values_are_joined_by_a_space() {
    let printed = print_line(&vec![Value::Integer(1), Value::Text(b"x".to_vec())]);
    assert_eq!(printed.text, b"\x1b[34m1\x1b[39m \x1b[33m\"x\"\x1b[39m\n".to_vec());
    assert_eq!(printed.failure, None);
}

#[test]
fn without_the_colours_it_reads_as_written() {
    let printed = print_line(&vec![Value::Integer(1), Value::Text(b"x".to_vec())]);
    let text = String::from_utf8(printed.text).unwrap();
    let plain = text
        .replace("\x1b[34m", "")
        .replace("\x1b[33m", "")
        .replace("\x1b[39m", "");
    assert_eq!(plain, "1 \"x\"\n");
}

#[test]
fn no_values_make_an_empty_line() {
    let printed = print_line(&vec![]);
    assert_eq!(printed.text, b"\n".to_vec());
    assert_eq!(printed.failure, None);
}

#[test]
fn one_value_has_no_space() {
    let printed = print_line(&vec![Value::Boolean(true)]);
    assert_eq!(printed.text, b"\x1b[1;32mtrue\x1b[22;39m\n".to_vec());
    assert_eq!(printed.failure, None);
}

#[test]
fn newlines_in_strings_are_kept() {
    let printed = print_line(&vec![Value::Text(b"a\nb".to_vec())]);
    assert_eq!(printed.text, b"\x1b[33m\"a\\\nb\"\x1b[39m\n".to_vec());
}

#[test]
fn a_failure_ends_the_line_where_it_stands() {
    let printed = print_line(&vec![Value::Integer(1), Value::Function, Value::Integer(2)]);
    assert_eq!(printed.text, b"\x1b[34m1\x1b[39m ".to_vec());
    assert_eq!(printed.failure, Some(ReprError::Unsupported(Opaque::Function)));
}

#[test]
fn a_failure_at_the_front_writes_nothing() {
    let printed = print_line(&vec![Value::Thread, Value::Function]);
    assert_eq!(printed.text, Vec::<u8>::new());
    assert_eq!(printed.failure, Some(ReprError::Unsupported(Opaque::Thread)));
}

#[test]
fn tables_are_printed_over_several_lines() {
    let table = Value::Table(vec![(Value::Text(b"a".to_vec()), Value::Integer(1))]);
    let printed = print_line(&vec![table]);
    assert_eq!(printed.text, b"{\n    a = \x1b[34m1\x1b[39m,\n}\n".to_vec());
}
