//! Numbers, lines, words and joined texts.

use broodcasc::compose::{join_strs, join_texts, terminate_texts};
use broodcasc::text::{
    chars_of, contains_chars, dec3_text, dec_text, hex2_text, hex_text, is_white_char,
    parse_number, same_text, split_fields, split_lines, split_words, string_of, trim,
};

fn strings(parts: Vec<&[char]>) -> Vec<String> {
    parts.into_iter().map(string_of).collect()
}

#[test]
fn numbers_are_rendered() {
    for n in [0u64, 1, 9, 10, 15, 16, 99, 100, 255, 256, 12345, u64::MAX] {
        assert_eq!(dec_text(n), n.to_string());
        assert_eq!(hex_text(n), format!("{n:x}"));
        assert_eq!(dec3_text(n), format!("{n:03}"));
    }
    for b in 0..=255u8 {
        assert_eq!(hex2_text(b), format!("{b:02x}"));
    }
}

#[test]
fn numbers_are_parsed_as_std_does() {
    for s in [
        "0", "7", "+7", "007", "18446744073709551615", "18446744073709551616", "", "+", "-1", " 1",
        "1 ", "1_0", "0x10", "\u{0663}", "99999999999999999999999999",
    ] {
        let chars = chars_of(s);
        assert_eq!(parse_number(&chars, u64::MAX), s.parse::<u64>().ok(), "{s:?}");
        assert_eq!(
            parse_number(&chars, u64::from(u32::MAX)),
            s.parse::<u32>().ok().map(u64::from),
            "{s:?}"
        );
    }
}

#[test]
fn texts_are_split_as_std_does() {
    for s in [
        "",
        "\n",
        "a",
        "a\n",
        "a\r\n",
        "a\r",
        "a\r\nb\nc",
        "a\n\n\nb\r\r\n",
        "a|b||c|",
        "|",
        "  two  words\t\u{00A0}\u{2003}more\u{3000}",
        "\u{0085}x\u{000B}y",
    ] {
        let chars = chars_of(s);
        assert_eq!(strings(split_lines(&chars)), s.lines().collect::<Vec<_>>(), "{s:?}");
        assert_eq!(
            strings(split_fields(&chars, '|')),
            s.split('|').collect::<Vec<_>>(),
            "{s:?}"
        );
        assert_eq!(
            strings(split_words(&chars)),
            s.split_whitespace().collect::<Vec<_>>(),
            "{s:?}"
        );
        assert_eq!(string_of(trim(&chars)), s.trim(), "{s:?}");
    }
}

#[test]
fn white_space_is_that_of_std() {
    for n in 0..=0x10_FFFFu32 {
        if let Some(c) = char::from_u32(n) {
            assert_eq!(is_white_char(c), c.is_whitespace(), "U+{n:04X}");
        }
    }
}

#[test]
fn texts_are_searched() {
    for (s, needle) in [
        ("", ""),
        ("abc", ""),
        ("abc", "abc"),
        ("abc", "bc"),
        ("abc", "ac"),
        ("abc", "abcd"),
        ("aab", "ab"),
        ("\u{00E4}\u{00F6}", "\u{00F6}"),
    ] {
        assert_eq!(
            contains_chars(&chars_of(s), &chars_of(needle)),
            s.contains(needle),
            "{s:?} {needle:?}"
        );
        assert_eq!(same_text(s, needle), s == needle);
    }
}

#[test]
fn texts_are_joined_and_terminated() {
    let parts: Vec<String> = ["a", "", "b"].iter().map(|s| s.to_string()).collect();
    assert_eq!(join_texts(&parts, ", "), "a, , b");
    assert_eq!(join_texts(&Vec::new(), ", "), "");
    assert_eq!(join_strs(&["a", "b"], "|"), "a|b");
    assert_eq!(join_strs(&["a"], "|"), "a");
    assert_eq!(join_strs(&[], "|"), "");
    assert_eq!(terminate_texts(&parts, "\r\n"), "a\r\n\r\nb\r\n");
    assert_eq!(terminate_texts(&Vec::new(), "\n"), "");
}
