use dope::names::is_name_text;

#[test]
fn letters_digits_and_underscores_make_a_name() {
    assert!(is_name_text("a"));
    assert!(is_name_text("Z"));
    assert!(is_name_text("_"));
    assert!(is_name_text("_x9"));
    assert!(is_name_text("snake_case_2"));
}

#[test]
fn a_name_does_not_begin_with_a_digit() {
    assert!(!is_name_text("1a"));
    assert!(!is_name_text("9"));
}

#[test]
fn the_empty_text_is_no_name() {
    assert!(!is_name_text(""));
}

#[test]
fn a_name_holds_no_other_character() {
    assert!(!is_name_text("a b"));
    assert!(!is_name_text("a-b"));
    assert!(!is_name_text(" a"));
    assert!(!is_name_text("a."));
    assert!(!is_name_text("h\u{e9}"));
    assert!(!is_name_text("\u{e9}"));
}

#[test]
fn a_newline_at_the_end_makes_no_name() {
    assert!(!is_name_text("a\n"));
    assert!(!is_name_text("\na"));
}

#[test]
fn a_compiled_test_serves_many_texts() {
    let test = dope::names::NameTest::new();
    assert!(test.is_name("alpha"));
    assert!(test.is_name("_"));
    assert!(!test.is_name("two words"));
    assert!(!test.is_name("7up"));
    assert!(test.is_name("alpha"));
}
