use dope::box_drawing::{lookup_symbol, LineStyle, Symbol};

const ABSENT: LineStyle = LineStyle::Absent;
const NORMAL: LineStyle = LineStyle::Normal;
const HEAVY: LineStyle = LineStyle::Heavy;
const ROUNDED: LineStyle = LineStyle::Rounded;

#[test]
fn each_style_knows_itself() {
    assert!(ABSENT.is_none() && !ABSENT.not_none());
    assert!(NORMAL.is_normal() && !NORMAL.not_normal());
    assert!(HEAVY.is_heavy() && !HEAVY.not_heavy());
    assert!(ROUNDED.is_rounded() && !ROUNDED.not_rounded());
}

#[test]
fn each_style_is_no_other() {
    assert!(!NORMAL.is_none() && NORMAL.not_none());
    assert!(!HEAVY.is_normal() && HEAVY.not_normal());
    assert!(!ROUNDED.is_heavy() && ROUNDED.not_heavy());
    assert!(!ABSENT.is_rounded() && ABSENT.not_rounded());
}

#[test]
fn directions_are_one_bit_each() {
    assert_eq!(Symbol::new(ABSENT, ABSENT, ABSENT, ABSENT, 1).directions_as_bits(), 0b0000);
    assert_eq!(Symbol::new(NORMAL, ABSENT, ABSENT, ABSENT, 1).directions_as_bits(), 0b0001);
    assert_eq!(Symbol::new(ABSENT, HEAVY, ABSENT, ABSENT, 1).directions_as_bits(), 0b0010);
    assert_eq!(Symbol::new(ABSENT, ABSENT, ROUNDED, ABSENT, 1).directions_as_bits(), 0b0100);
    assert_eq!(Symbol::new(ABSENT, ABSENT, ABSENT, NORMAL, 1).directions_as_bits(), 0b1000);
    assert_eq!(Symbol::new(NORMAL, NORMAL, NORMAL, NORMAL, 1).directions_as_bits(), 0b1111);
}

#[test]
fn directions_are_told() {
    let s = Symbol::new(NORMAL, ABSENT, HEAVY, ABSENT, 1);
    assert!(s.has_up());
    assert!(!s.has_down());
    assert!(s.has_left());
    assert!(!s.has_right());
}

#[test]
fn solid_horizontal_lines() {
    assert_eq!(Symbol::new(ABSENT, ABSENT, NORMAL, NORMAL, 1).get_char(), '\u{2500}');
    assert_eq!(Symbol::new(ABSENT, ABSENT, HEAVY, HEAVY, 1).get_char(), '\u{2501}');
}

#[test]
fn dashed_horizontal_lines() {
    assert_eq!(Symbol::new(ABSENT, ABSENT, NORMAL, NORMAL, 2).get_char(), '\u{254c}');
    assert_eq!(Symbol::new(ABSENT, ABSENT, HEAVY, HEAVY, 2).get_char(), '\u{254d}');
    assert_eq!(Symbol::new(ABSENT, ABSENT, NORMAL, NORMAL, 3).get_char(), '\u{2504}');
    assert_eq!(Symbol::new(ABSENT, ABSENT, HEAVY, HEAVY, 3).get_char(), '\u{2505}');
    assert_eq!(Symbol::new(ABSENT, ABSENT, NORMAL, NORMAL, 4).get_char(), '\u{2508}');
    assert_eq!(Symbol::new(ABSENT, ABSENT, HEAVY, HEAVY, 4).get_char(), '\u{2509}');
}

#[test]
fn rounded_horizontal_line_is_light() {
    assert_eq!(Symbol::new(ABSENT, ABSENT, ROUNDED, ROUNDED, 1).get_char(), '\u{2500}');
}

#[test]
fn every_other_symbol_is_the_light_line() {
    assert_eq!(Symbol::new(ABSENT, ABSENT, ABSENT, ABSENT, 1).get_char(), '\u{2500}');
    assert_eq!(Symbol::new(NORMAL, NORMAL, ABSENT, ABSENT, 3).get_char(), '\u{2500}');
    assert_eq!(Symbol::new(ABSENT, ABSENT, NORMAL, HEAVY, 2).get_char(), '\u{2500}');
    assert_eq!(Symbol::new(NORMAL, ABSENT, HEAVY, HEAVY, 2).get_char(), '\u{2500}');
}

#[test]
fn the_table_knows_two_symbols() {
    assert_eq!(lookup_symbol(&Symbol::new(ABSENT, ABSENT, ABSENT, ABSENT, 1)), Some(' '));
    assert_eq!(lookup_symbol(&Symbol::new(NORMAL, NORMAL, ABSENT, ABSENT, 1)), Some('\u{2500}'));
}

#[test]
fn the_table_knows_no_other_symbol() {
    assert_eq!(lookup_symbol(&Symbol::new(ABSENT, ABSENT, NORMAL, NORMAL, 1)), None);
    assert_eq!(lookup_symbol(&Symbol::new(ABSENT, ABSENT, ABSENT, ABSENT, 2)), None);
    assert_eq!(lookup_symbol(&Symbol::new(NORMAL, NORMAL, ABSENT, ABSENT, 4)), None);
    assert_eq!(lookup_symbol(&Symbol::new(HEAVY, HEAVY, ABSENT, ABSENT, 1)), None);
}

#[test]
fn a_symbol_has_one_to_four_segments() {
    assert!(Symbol::try_new(ABSENT, ABSENT, NORMAL, NORMAL, 0).is_none());
    assert!(Symbol::try_new(ABSENT, ABSENT, NORMAL, NORMAL, 5).is_none());
    assert!(Symbol::try_new(ABSENT, ABSENT, NORMAL, NORMAL, 255).is_none());
    for count in 1u8..=4 {
        assert_eq!(
            Symbol::try_new(ABSENT, ABSENT, NORMAL, NORMAL, count),
            Some(Symbol::new(ABSENT, ABSENT, NORMAL, NORMAL, count))
        );
    }
}
