use mnemesis::text::{blank, chars_of, decimal_string, join3, string_of, utf8_len, white_space};

#[test]
fn decimal_numerals() {
    assert_eq!(decimal_string(0), "0");
    assert_eq!(decimal_string(7), "7");
    assert_eq!(decimal_string(10), "10");
    assert_eq!(decimal_string(1205), "1205");
    assert_eq!(decimal_string(u64::MAX), "18446744073709551615");
}

#[test]
fn blank_texts() {
    assert!(blank(""));
    assert!(blank(" \t\n\r\u{a0}\u{2003}\u{3000}"));
    assert!(!blank("  x "));
    assert!(!blank("\u{200b}"));
    assert!(white_space('\u{85}'));
    assert!(!white_space('_'));
}

#[test]
fn characters_round_trip() {
    let v = chars_of("añb€");
    assert_eq!(v, vec!['a', 'ñ', 'b', '€']);
    assert_eq!(string_of(&v), "añb€");
    assert_eq!(utf8_len("añb€"), 7);
    assert_eq!(join3("a", "bc", ""), "abc");
}
