use torentino_pure::scan::{
    equal_but_case, find_char, lowercase, parse_number16, second_word, split_text, starts_with,
    trim, trim_end,
};

#[test]
fn white_space_around_a_text() {
    assert_eq!(trim(" \t\u{3000}a b\u{85}\n"), "a b");
    assert_eq!(trim("\u{200b}x"), "\u{200b}x");
    assert_eq!(trim("  "), "");
    assert_eq!(trim_end("a\r\r", '\r'), "a");
    assert_eq!(trim_end("\ra", '\r'), "\ra");
}

#[test]
fn separators() {
    assert_eq!(split_text("a,,b,", ','), vec!["a", "", "b", ""]);
    assert_eq!(split_text("", ','), vec![""]);
    assert_eq!(split_text("\u{e4},\u{1f600}", ','), vec!["\u{e4}", "\u{1f600}"]);
    assert_eq!(find_char("\u{e4}:b:", ':'), Some(1));
    assert_eq!(find_char("ab", ':'), None);
}

#[test]
fn words() {
    assert_eq!(second_word("  one \t two three"), Some("two"));
    assert_eq!(second_word("one "), None);
    assert_eq!(second_word(""), None);
}

#[test]
fn beginnings_and_case() {
    assert!(starts_with("http://x", "http://"));
    assert!(!starts_with("http:/", "http://"));
    assert!(starts_with("", ""));
    assert!(equal_but_case("LoCation", "location"));
    assert!(!equal_but_case("locations", "location"));
    assert!(!equal_but_case("l\u{d6}cation", "l\u{f6}cation"));
}

#[test]
fn white_space_is_what_the_standard_library_takes_for_it() {
    for n in 0..=0x10ffffu32 {
        if let Some(c) = char::from_u32(n) {
            let mut buf = [0u8; 4];
            let s: &str = c.encode_utf8(&mut buf);
            assert_eq!(trim(s).is_empty(), s.trim().is_empty());
        }
    }
}

#[test]
fn small_numbers() {
    assert_eq!(parse_number16("0200"), Some(200));
    assert_eq!(parse_number16("+7"), Some(7));
    assert_eq!(parse_number16("65535"), Some(65535));
    for wrong in ["", "+", "-1", "++1", "65536", "1x", " 1", "99999999999999999999999"] {
        assert_eq!(parse_number16(wrong), wrong.parse::<u16>().ok());
        assert_eq!(parse_number16(wrong), None);
    }
}

#[test]
fn small_letters() {
    assert_eq!(lowercase("@AbYZ[`z\u{c4}9"), "@abyz[`z\u{c4}9");
    assert_eq!(lowercase("ABCDEFGHIJKLMNOPQRSTUVWXYZ"), "abcdefghijklmnopqrstuvwxyz");
    assert_eq!(lowercase(""), "");
}
