use compiler::text::{char_width, chars_of, digit, goes_on, name_start, parse_decimal, push_decimal, trim, Run};

#[test]
fn characters_are_copied_in_order() {
    assert_eq!(chars_of("a\u{e9}\u{2603}"), vec!['a', '\u{e9}', '\u{2603}']);
    assert_eq!(chars_of(""), Vec::<char>::new());
}

#[test]
fn widths_follow_utf8() {
    assert_eq!(char_width('a'), 1);
    assert_eq!(char_width('\u{7f}'), 1);
    assert_eq!(char_width('\u{80}'), 2);
    assert_eq!(char_width('\u{7ff}'), 2);
    assert_eq!(char_width('\u{800}'), 3);
    assert_eq!(char_width('\u{ffff}'), 3);
    assert_eq!(char_width('\u{10000}'), 4);
    assert_eq!(char_width('\u{10ffff}'), 4);
    for c in ['a', '\u{e9}', '\u{2603}', '\u{1f600}'] {
        assert_eq!(char_width(c), c.len_utf8());
    }
}

#[test]
fn character_classes() {
    assert!(name_start('a') && name_start('Z') && name_start('_') && name_start('\u{e9}'));
    assert!(!name_start('1') && !name_start(' ') && !name_start('#') && !name_start('\n'));
    assert!(digit('0') && digit('9') && !digit('a') && !digit('/') && !digit(':'));
    assert!(!digit('\u{663}'));
}

#[test]
fn runs_go_on_over_their_characters() {
    assert!(goes_on(Run::Name, 'a') && goes_on(Run::Name, '1') && !goes_on(Run::Name, '-'));
    assert!(goes_on(Run::Digits, '5') && !goes_on(Run::Digits, 'a'));
    assert!(goes_on(Run::Hashes, '#') && !goes_on(Run::Hashes, ' '));
    assert!(goes_on(Run::Blank, ' ') && goes_on(Run::Blank, '\n') && !goes_on(Run::Blank, 'x'));
    assert!(goes_on(Run::Quoted, 'x') && !goes_on(Run::Quoted, '`') && !goes_on(Run::Quoted, '\n'));
    assert!(goes_on(Run::Until(';'), 'x') && !goes_on(Run::Until(';'), ';'));
}

#[test]
fn decimal_numerals_are_read() {
    let v: Vec<char> = "x0123456789y".chars().collect();
    assert_eq!(parse_decimal(&v, 1, 1), Some(0));
    assert_eq!(parse_decimal(&v, 1, 5), Some(123));
    assert_eq!(parse_decimal(&v, 2, 11), Some(123456789));
    assert_eq!(parse_decimal(&v, 1, 11), Some(123456789));
    let max: Vec<char> = "2147483647".chars().collect();
    assert_eq!(parse_decimal(&max, 0, 10), Some(i32::MAX));
    let over: Vec<char> = "2147483648".chars().collect();
    assert_eq!(parse_decimal(&over, 0, 10), None);
    assert_eq!(parse_decimal(&over, 0, 9), Some(214748364));
    let long: Vec<char> = "10000000000".chars().collect();
    assert_eq!(parse_decimal(&long, 0, 11), None);
}

#[test]
fn decimal_numerals_are_written() {
    for (n, text) in [(0, "0"), (7, "7"), (10, "10"), (109, "109"), (4294967295, "4294967295")] {
        let mut s = String::from(">");
        push_decimal(&mut s, n);
        assert_eq!(s, format!(">{}", text));
    }
}

#[test]
fn written_numerals_read_back() {
    for n in [0usize, 1, 9, 10, 99, 100, 12345, 2147483647] {
        let mut s = String::new();
        push_decimal(&mut s, n);
        let v: Vec<char> = s.chars().collect();
        assert_eq!(parse_decimal(&v, 0, v.len()), Some(n as i32));
    }
}

#[test]
fn trimming_removes_blanks_at_both_ends() {
    assert_eq!(trim("  hello world \t\n"), "hello world");
    assert_eq!(trim("hello"), "hello");
    assert_eq!(trim(" \t "), "");
    assert_eq!(trim(""), "");
    assert_eq!(trim("\u{a0}a b\u{3000}"), "a b");
    for s in [" a ", "\tb", "c\r\n", " \u{2003}d e\u{2003} "] {
        assert_eq!(trim(s), s.trim());
    }
}
