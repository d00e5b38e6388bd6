use dope::repr::{get_indent, render_bytes, repr};
use dope::value::{Opaque, RenderConfig, ReprError, Value};

fn plain() -> RenderConfig {
    RenderConfig { color: false, multiline: false, indent_width: 4, depth: 0 }
}

fn coloured() -> RenderConfig {
    RenderConfig { color: true, multiline: false, indent_width: 4, depth: 0 }
}

fn text(s: &str) -> Value {
    Value::Text(s.as_bytes().to_vec())
}

#[test]
fn default_settings() {
    assert_eq!(RenderConfig::default(), plain());
}

#[test]
fn indentation_is_for_depth_one_alone() {
    assert_eq!(get_indent(4, 0), b"".to_vec());
    assert_eq!(get_indent(4, 1), b"    ".to_vec());
    assert_eq!(get_indent(4, 2), b"".to_vec());
    assert_eq!(get_indent(4, 3), b"".to_vec());
    assert_eq!(get_indent(4, u32::MAX), b"".to_vec());
}

#[test]
fn indentation_has_the_given_width() {
    assert_eq!(get_indent(0, 1), b"".to_vec());
    assert_eq!(get_indent(1, 1), b" ".to_vec());
    assert_eq!(get_indent(255, 1), vec![0x20u8; 255]);
}

#[test]
fn nil_is_a_literal() {
    assert_eq!(repr(&Value::Nil, &plain()), Ok("nil".to_string()));
    assert_eq!(repr(&Value::Nil, &coloured()), Ok("\x1b[3;31mnil\x1b[23;39m".to_string()));
}

#[test]
fn booleans_are_literals() {
    assert_eq!(repr(&Value::Boolean(true), &plain()), Ok("true".to_string()));
    assert_eq!(repr(&Value::Boolean(false), &plain()), Ok("false".to_string()));
}

#[test]
fn booleans_in_colour() {
    assert_eq!(
        repr(&Value::Boolean(true), &coloured()),
        Ok("\x1b[1;32mtrue\x1b[22;39m".to_string())
    );
    assert_eq!(
        repr(&Value::Boolean(false), &coloured()),
        Ok("\x1b[1;31mfalse\x1b[22;39m".to_string())
    );
}

#[test]
fn integers_are_decimal() {
    assert_eq!(repr(&Value::Integer(0), &plain()), Ok("0".to_string()));
    assert_eq!(repr(&Value::Integer(42), &plain()), Ok("42".to_string()));
    assert_eq!(repr(&Value::Integer(-17), &plain()), Ok("-17".to_string()));
    assert_eq!(repr(&Value::Integer(i64::MIN), &plain()), Ok(i64::MIN.to_string()));
    assert_eq!(repr(&Value::Integer(i64::MAX), &plain()), Ok(i64::MAX.to_string()));
}

#[test]
fn integers_in_colour() {
    assert_eq!(repr(&Value::Integer(5), &coloured()), Ok("\x1b[34m5\x1b[39m".to_string()));
}

#[test]
fn numbers_are_written_as_given() {
    assert_eq!(repr(&Value::Number(1.5f64.to_string()), &plain()), Ok("1.5".to_string()));
    assert_eq!(repr(&Value::Number(f64::NAN.to_string()), &plain()), Ok("NaN".to_string()));
    assert_eq!(repr(&Value::Number(f64::INFINITY.to_string()), &plain()), Ok("inf".to_string()));
    assert_eq!(
        repr(&Value::Number((-0.25f64).to_string()), &coloured()),
        Ok("\x1b[34m-0.25\x1b[39m".to_string())
    );
}

#[test]
fn strings_are_escaped() {
    assert_eq!(repr(&text("x"), &plain()), Ok("\"x\"".to_string()));
    assert_eq!(repr(&text("a\x01b"), &plain()), Ok("\"a\u{2401}b\"".to_string()));
    assert_eq!(repr(&text("a\nb"), &plain()), Ok("\"a\u{240a}b\"".to_string()));
}

#[test]
fn strings_follow_the_multiline_setting() {
    let config = RenderConfig { color: false, multiline: true, indent_width: 4, depth: 0 };
    assert_eq!(repr(&text("a\nb"), &config), Ok("\"a\\\nb\"".to_string()));
}

#[test]
fn strings_in_colour() {
    assert_eq!(repr(&text("x"), &coloured()), Ok("\x1b[33m\"x\"\x1b[39m".to_string()));
}

#[test]
fn a_string_that_is_no_text_fails() {
    assert_eq!(repr(&Value::Text(vec![0xff]), &plain()), Err(ReprError::Encoding));
}

#[test]
fn a_function_is_not_rendered() {
    assert_eq!(
        repr(&Value::Function, &plain()),
        Err(ReprError::Unsupported(Opaque::Function))
    );
}

#[test]
fn the_other_opaque_kinds_are_not_rendered() {
    assert_eq!(repr(&Value::Thread, &plain()), Err(ReprError::Unsupported(Opaque::Thread)));
    assert_eq!(repr(&Value::UserData, &plain()), Err(ReprError::Unsupported(Opaque::UserData)));
    assert_eq!(
        repr(&Value::LightUserData, &coloured()),
        Err(ReprError::Unsupported(Opaque::LightUserData))
    );
}

#[test]
fn an_unknown_kind_is_not_rendered() {
    assert_eq!(repr(&Value::Other, &plain()), Err(ReprError::Unrepresentable));
}

#[test]
fn failures_have_messages() {
    assert_eq!(ReprError::Unrepresentable.message(), "Cannot generate repr for value!");
    assert_eq!(ReprError::Unsupported(Opaque::Function).message(), "dope.repr() is not implemented for functions");
    assert_eq!(ReprError::Unsupported(Opaque::Thread).message(), "dope.repr() is not implemented for threads");
    assert_eq!(
        ReprError::Unsupported(Opaque::UserData).message(),
        "dope.repr() is not implemented for userdata-objects"
    );
    assert_eq!(
        ReprError::Unsupported(Opaque::LightUserData).message(),
        "dope.repr() is not implemented for lightuserdata-objects"
    );
    assert_eq!(ReprError::Encoding.message(), "Rendered string is not valid UTF-8!");
}

#[test]
fn an_empty_table_is_two_braces() {
    for color in [false, true] {
        for multiline in [false, true] {
            for indent_width in [0u8, 4, 255] {
                for depth in [0u32, 1, 2, u32::MAX] {
                    let config = RenderConfig { color, multiline, indent_width, depth };
                    assert_eq!(repr(&Value::Table(vec![]), &config), Ok("{}".to_string()));
                }
            }
        }
    }
}

#[test]
fn entries_are_ordered_by_key() {
    let table = Value::Table(vec![(text("b"), Value::Integer(2)), (text("a"), Value::Integer(1))]);
    assert_eq!(repr(&table, &plain()), Ok("{\n    a = 1,\n    b = 2,\n}".to_string()));
}

#[test]
fn the_order_of_insertion_does_not_matter() {
    let one = Value::Table(vec![(text("b"), Value::Integer(2)), (text("a"), Value::Integer(1))]);
    let other = Value::Table(vec![(text("a"), Value::Integer(1)), (text("b"), Value::Integer(2))]);
    assert_eq!(repr(&one, &plain()), repr(&other, &plain()));
}

#[test]
fn a_key_with_a_space_is_bracketed() {
    let table = Value::Table(vec![(text("a b"), Value::Integer(1))]);
    assert_eq!(repr(&table, &plain()), Ok("{\n    [\"a b\"] = 1,\n}".to_string()));
}

#[test]
fn a_key_that_begins_with_a_digit_is_bracketed() {
    let table = Value::Table(vec![(text("1st"), Value::Boolean(true))]);
    assert_eq!(repr(&table, &plain()), Ok("{\n    [\"1st\"] = true,\n}".to_string()));
}

#[test]
fn an_empty_key_is_bracketed() {
    let table = Value::Table(vec![(text(""), Value::Nil)]);
    assert_eq!(repr(&table, &plain()), Ok("{\n    [\"\"] = nil,\n}".to_string()));
}

#[test]
fn a_key_that_is_no_string_is_bracketed() {
    let table = Value::Table(vec![
        (Value::Integer(2), text("two")),
        (Value::Integer(1), text("one")),
        (Value::Boolean(true), text("yes")),
    ]);
    assert_eq!(
        repr(&table, &plain()),
        Ok("{\n    [1] = \"one\",\n    [2] = \"two\",\n    [true] = \"yes\",\n}".to_string())
    );
}

#[test]
fn keys_are_ordered_by_their_rendered_text() {
    // A quote comes before a bracketed digit's text, a digit before a letter.
    let table = Value::Table(vec![
        (text("x"), Value::Integer(1)),
        (Value::Integer(10), Value::Integer(2)),
        (Value::Integer(9), Value::Integer(3)),
        (text("a b"), Value::Integer(4)),
    ]);
    assert_eq!(
        repr(&table, &plain()),
        Ok("{\n    [\"a b\"] = 4,\n    x = 1,\n    [10] = 2,\n    [9] = 3,\n}".to_string())
    );
}

#[test]
fn keys_with_equal_texts_keep_their_order() {
    let picture = "\u{2401}";
    let first = Value::Table(vec![
        (Value::Text(vec![0x01]), Value::Integer(1)),
        (text(picture), Value::Integer(2)),
    ]);
    let second = Value::Table(vec![
        (text(picture), Value::Integer(2)),
        (Value::Text(vec![0x01]), Value::Integer(1)),
    ]);
    assert_eq!(
        repr(&first, &plain()),
        Ok("{\n    [\"\u{2401}\"] = 1,\n    [\"\u{2401}\"] = 2,\n}".to_string())
    );
    assert_eq!(
        repr(&second, &plain()),
        Ok("{\n    [\"\u{2401}\"] = 2,\n    [\"\u{2401}\"] = 1,\n}".to_string())
    );
}

#[test]
fn the_indent_width_is_used() {
    let table = Value::Table(vec![(text("a"), Value::Integer(1))]);
    let two = RenderConfig { color: false, multiline: false, indent_width: 2, depth: 0 };
    let none = RenderConfig { color: false, multiline: false, indent_width: 0, depth: 0 };
    assert_eq!(repr(&table, &two), Ok("{\n  a = 1,\n}".to_string()));
    assert_eq!(repr(&table, &none), Ok("{\na = 1,\n}".to_string()));
}

#[test]
fn a_table_at_depth_one_closes_behind_its_indent() {
    let table = Value::Table(vec![(text("a"), Value::Integer(1))]);
    let config = RenderConfig { color: false, multiline: false, indent_width: 4, depth: 1 };
    assert_eq!(repr(&table, &config), Ok("{\na = 1,\n    }".to_string()));
}

#[test]
fn a_table_beyond_depth_one_is_not_indented() {
    let table = Value::Table(vec![(text("a"), Value::Integer(1))]);
    for depth in [2u32, 3, 1000, u32::MAX - 1, u32::MAX] {
        let config = RenderConfig { color: false, multiline: false, indent_width: 4, depth };
        assert_eq!(repr(&table, &config), Ok("{\na = 1,\n}".to_string()));
    }
}

#[test]
fn a_table_in_a_table() {
    let inner = Value::Table(vec![(text("b"), Value::Integer(1))]);
    let outer = Value::Table(vec![(text("a"), inner)]);
    assert_eq!(repr(&outer, &plain()), Ok("{\n    a = {\nb = 1,\n    },\n}".to_string()));
}

#[test]
fn a_table_in_a_table_in_a_table() {
    let innermost = Value::Table(vec![(text("c"), Value::Nil)]);
    let inner = Value::Table(vec![(text("b"), innermost)]);
    let outer = Value::Table(vec![(text("a"), inner)]);
    assert_eq!(
        repr(&outer, &plain()),
        Ok("{\n    a = {\nb = {\nc = nil,\n},\n    },\n}".to_string())
    );
}

#[test]
fn a_table_as_a_key() {
    let key = Value::Table(vec![]);
    let table = Value::Table(vec![(key, Value::Integer(1))]);
    assert_eq!(repr(&table, &plain()), Ok("{\n    [{}] = 1,\n}".to_string()));
}

#[test]
fn a_table_in_colour() {
    // In colour every key's text begins with the colour of a string.
    let table = Value::Table(vec![(text("a"), Value::Integer(1)), (text("b c"), text("x"))]);
    assert_eq!(
        repr(&table, &coloured()),
        Ok(
            "{\n    a = \x1b[34m1\x1b[39m,\n    [\x1b[33m\"b c\"\x1b[39m] = \x1b[33m\"x\"\x1b[39m,\n}"
                .to_string()
        )
    );
}

#[test]
fn a_name_in_colour_is_still_written_bare() {
    let table = Value::Table(vec![(text("a"), Value::Nil)]);
    assert_eq!(
        repr(&table, &coloured()),
        Ok("{\n    a = \x1b[3;31mnil\x1b[23;39m,\n}".to_string())
    );
}

#[test]
fn a_key_that_fails_makes_the_table_fail() {
    let table = Value::Table(vec![
        (text("a"), Value::Integer(1)),
        (Value::Thread, Value::Integer(2)),
        (Value::Function, Value::Integer(3)),
    ]);
    assert_eq!(repr(&table, &plain()), Err(ReprError::Unsupported(Opaque::Thread)));
}

#[test]
fn keys_fail_before_values() {
    let table = Value::Table(vec![
        (text("a"), Value::Function),
        (Value::Other, Value::Integer(2)),
    ]);
    assert_eq!(repr(&table, &plain()), Err(ReprError::Unrepresentable));
}

#[test]
fn values_fail_in_the_order_of_the_keys() {
    let table = Value::Table(vec![
        (text("z"), Value::Function),
        (text("a"), Value::Thread),
    ]);
    assert_eq!(repr(&table, &plain()), Err(ReprError::Unsupported(Opaque::Thread)));
}

#[test]
fn a_failure_deep_inside_makes_the_whole_fail() {
    let inner = Value::Table(vec![(text("b"), Value::Text(vec![0xc0]))]);
    let outer = Value::Table(vec![(text("a"), inner)]);
    assert_eq!(repr(&outer, &plain()), Err(ReprError::Encoding));
}

#[test]
fn bytes_and_text_agree() {
    let table = Value::Table(vec![(text("k"), text("h\u{e9}\n"))]);
    let bytes = render_bytes(&table, &plain()).unwrap();
    let string = repr(&table, &plain()).unwrap();
    assert_eq!(bytes, string.into_bytes());
}

#[test]
fn a_copy_renders_as_its_source() {
    let inner = Value::Table(vec![(text("b"), Value::Number("2.5".to_string()))]);
    let table = Value::Table(vec![
        (text("a"), inner),
        (Value::Integer(3), Value::Text(vec![0x01, 0x09])),
        (Value::Boolean(false), Value::Nil),
    ]);
    let copy = table.clone();
    assert_eq!(repr(&copy, &plain()), repr(&table, &plain()));
    assert_eq!(
        repr(&copy, &plain()),
        Ok("{\n    a = {\nb = 2.5,\n    },\n    [3] = \"\u{2401}\t\",\n    [false] = nil,\n}".to_string())
    );
}

#[test]
fn a_copy_fails_as_its_source() {
    let table = Value::Table(vec![(text("a"), Value::UserData)]);
    assert_eq!(repr(&table.clone(), &plain()), Err(ReprError::Unsupported(Opaque::UserData)));
}

#[test]
fn a_large_table_is_ordered() {
    let mut entries = Vec::new();
    for i in 0..500u32 {
        entries.push((text(&format!("k{:03}", 499 - i)), Value::Integer(i as i64)));
    }
    let rendered = repr(&Value::Table(entries), &plain()).unwrap();
    let lines: Vec<&str> = rendered.lines().collect();
    assert_eq!(lines.len(), 502);
    assert_eq!(lines[0], "{");
    assert_eq!(lines[1], "    k000 = 499,");
    assert_eq!(lines[250], "    k249 = 250,");
    assert_eq!(lines[500], "    k499 = 0,");
    assert_eq!(lines[501], "}");
}

#[test]
fn a_string_with_a_delete_byte_fails() {
    assert_eq!(repr(&Value::Text(vec![0x61, 0x7f]), &plain()), Err(ReprError::Encoding));
}
