use pitwall::text::{chars_of, scan, spells, Class};

#[test]
fn chars_of_keeps_every_character() {
    assert_eq!(chars_of(""), Vec::<char>::new());
    assert_eq!(chars_of("RPM:1"), vec!['R', 'P', 'M', ':', '1']);
    assert_eq!(chars_of("é1"), vec!['é', '1']);
}

#[test]
fn class_membership() {
    for c in [' ', '\t', '\n', '\x0C', '\r'] {
        assert!(Class::Blank.admits(c));
        assert!(!Class::Solid.admits(c));
    }
    for c in ['a', '0', ':', '\x0B', '\u{a0}', 'é'] {
        assert!(!Class::Blank.admits(c));
        assert!(Class::Solid.admits(c));
    }
    for c in ['0', '5', '9'] {
        assert!(Class::Digit.admits(c));
    }
    for c in ['/', ':', 'a', '٣', ' '] {
        assert!(!Class::Digit.admits(c));
    }
    assert!(!Class::Except(':').admits(':'));
    assert!(Class::Except(':').admits(';'));
    assert!(Class::Except('x').admits(':'));
}

#[test]
fn scan_stops_at_the_first_outsider() {
    let chars = chars_of("  ab c");
    assert_eq!(scan(&chars, 0, 6, Class::Blank), 2);
    assert_eq!(scan(&chars, 2, 6, Class::Solid), 4);
    assert_eq!(scan(&chars, 4, 6, Class::Blank), 5);
    assert_eq!(scan(&chars, 5, 6, Class::Solid), 6);
    assert_eq!(scan(&chars, 2, 6, Class::Blank), 2);
    assert_eq!(scan(&chars, 6, 6, Class::Blank), 6);
}

#[test]
fn scan_looks_no_further_than_asked() {
    let chars = chars_of("12345");
    assert_eq!(scan(&chars, 0, 3, Class::Digit), 3);
    assert_eq!(scan(&chars, 1, 1, Class::Digit), 1);
    assert_eq!(scan(&chars, 0, 5, Class::Except('4')), 3);
}

#[test]
fn spells_compares_a_part() {
    let chars = chars_of("RPM:4500");
    assert!(spells(&chars, 0, 3, &chars_of("RPM")));
    assert!(!spells(&chars, 0, 3, &chars_of("RPN")));
    assert!(!spells(&chars, 0, 4, &chars_of("RPM")));
    assert!(!spells(&chars, 0, 2, &chars_of("RPM")));
    assert!(spells(&chars, 4, 8, &chars_of("4500")));
    assert!(spells(&chars, 3, 3, &chars_of("")));
}

#[test]
fn classes_agree_with_the_ascii_predicates_on_every_character() {
    for code in 0..=0x10FFFFu32 {
        if let Some(c) = char::from_u32(code) {
            assert_eq!(Class::Blank.admits(c), c.is_ascii_whitespace(), "{:?}", c);
            assert_eq!(Class::Solid.admits(c), !c.is_ascii_whitespace(), "{:?}", c);
            assert_eq!(Class::Digit.admits(c), c.is_ascii_digit(), "{:?}", c);
            assert_eq!(Class::Except(':').admits(c), c != ':', "{:?}", c);
        }
    }
}
