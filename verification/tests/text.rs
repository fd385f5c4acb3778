use tileset_downloader::text::{
    ascii_lower, ascii_upper, decimal_text, has_char, has_suffix, pad_text, replace_text,
    same_text, split_text, text_before_either, trim_text, white_space,
};

#[test]
fn numbers_are_written_in_decimal() {
    for n in [0u64, 7, 10, 99, 100, 12_345, u64::MAX] {
        assert_eq!(decimal_text(n), n.to_string());
    }
}

#[test]
fn letters_change_case_only_in_ascii() {
    for text in ["", "TileSet.JSON", "ÄÖ-Straße_9"] {
        assert_eq!(ascii_lower(text), text.to_ascii_lowercase());
        assert_eq!(ascii_upper(text), text.to_ascii_uppercase());
    }
}

#[test]
fn pieces_are_those_of_the_standard_library() {
    for text in ["", "/", "a", "/a//b/", "ä/ö"] {
        let wanted: Vec<&str> = text.split('/').collect();
        assert_eq!(split_text(text, '/'), wanted);
    }
}

#[test]
fn replacing_is_that_of_the_standard_library() {
    for (text, pattern, with) in [
        ("{x}_{x}", "{x}", "12"),
        ("aaaa", "aa", "b"),
        ("aaa", "aa", "aa"),
        ("none", "{y}", "1"),
        ("", "a", "b"),
    ] {
        assert_eq!(replace_text(text, pattern, with), text.replace(pattern, with));
    }
}

#[test]
fn trimming_is_that_of_the_standard_library() {
    for text in ["", "  ", "\t a b\r\n", "\u{a0}x\u{3000}", "\u{200b}x"] {
        assert_eq!(trim_text(text), text.trim());
    }
    for code in 0..0x3100u32 {
        if let Some(c) = char::from_u32(code) {
            assert_eq!(white_space(c), c.is_whitespace(), "{code:x}");
        }
    }
}

#[test]
fn small_questions_about_text() {
    assert!(has_suffix("a.json", ".json"));
    assert!(!has_suffix("json", ".json"));
    assert!(has_char("a:b", ':'));
    assert!(!has_char("ab", ':'));
    assert!(same_text("a", "a"));
    assert!(!same_text("a", "b"));
    assert_eq!(text_before_either("a?b#c", '?', '#'), "a");
    assert_eq!(text_before_either("a#b?c", '?', '#'), "a");
    assert_eq!(text_before_either("abc", '?', '#'), "abc");
    assert_eq!(pad_text("ab", 4), "ab  ");
    assert_eq!(pad_text("abcde", 4), "abcde");
}
