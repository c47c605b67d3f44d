use miner_net::text::{
    chars_of, decimal_string, pad_right, parse_u32, remove_char, split_on, string_of, trim_char,
};

#[test]
fn decimal_string_writes_plain_digits() {
    assert_eq!(decimal_string(0), "0");
    assert_eq!(decimal_string(7), "7");
    assert_eq!(decimal_string(1200), "1200");
    assert_eq!(decimal_string(u32::MAX), "4294967295");
}

#[test]
fn parse_u32_reads_as_std_does() {
    assert_eq!(parse_u32("0"), Some(0));
    assert_eq!(parse_u32("42"), Some(42));
    assert_eq!(parse_u32("007"), Some(7));
    assert_eq!(parse_u32("+5"), Some(5));
    assert_eq!(parse_u32("4294967295"), Some(u32::MAX));
    assert_eq!(parse_u32("4294967296"), None);
    assert_eq!(parse_u32("99999999999999999999"), None);
    assert_eq!(parse_u32(""), None);
    assert_eq!(parse_u32("+"), None);
    assert_eq!(parse_u32("-5"), None);
    assert_eq!(parse_u32("5 "), None);
    assert_eq!(parse_u32("1a"), None);
    assert_eq!(parse_u32("\u{0}3"), None);
    for s in ["0", "+12", "4294967295", "4294967296", "", "+", "-1", "12x", "٣"] {
        assert_eq!(parse_u32(s), s.parse::<u32>().ok(), "{:?}", s);
    }
}

#[test]
fn trim_char_takes_the_character_off_both_ends() {
    assert_eq!(trim_char("\u{0}\u{0}12\u{0}", '\u{0}'), "12");
    assert_eq!(trim_char("1\u{0}2", '\u{0}'), "1\u{0}2");
    assert_eq!(trim_char("\u{0}\u{0}", '\u{0}'), "");
    assert_eq!(trim_char("", '\u{0}'), "");
    let s = "\u{0}a\u{0}b\u{0}\u{0}";
    assert_eq!(trim_char(s, '\u{0}'), s.trim_matches('\u{0}'));
}

#[test]
fn split_on_gives_every_piece() {
    let pieces: Vec<String> = split_on(&chars_of("a;b;;c;"), ';')
        .iter()
        .map(|p| p.iter().collect())
        .collect();
    assert_eq!(pieces, vec!["a", "b", "", "c", ""]);
    let expected: Vec<&str> = "a;b;;c;".split(';').collect();
    assert_eq!(pieces, expected);
    assert_eq!(split_on(&chars_of(""), ';').len(), 1);
}

#[test]
fn pad_right_fills_to_the_width() {
    assert_eq!(pad_right(String::from("ab"), 'X', 5), "abXXX");
    assert_eq!(pad_right(String::from("abcdef"), 'X', 5), "abcdef");
    assert_eq!(pad_right(String::from("é"), 'Y', 3), "éYY");
    assert_eq!(pad_right(String::from("é"), 'Y', 3), format!("{:Y<3}", "é"));
}

#[test]
fn remove_char_takes_out_every_copy() {
    assert_eq!(remove_char("XaXbXX", 'X'), "ab");
    assert_eq!(remove_char("abc", 'X'), "abc");
    assert_eq!(remove_char("XXX", 'X'), "");
}

#[test]
fn string_of_takes_a_range_of_characters() {
    let cs = chars_of("héllo");
    assert_eq!(string_of(&cs, 1, 4), "éll");
    assert_eq!(string_of(&cs, 2, 2), "");
}
