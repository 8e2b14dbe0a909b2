use cypher_search::text::{char_is_whitespace, has_prefix, trim};
use cypher_search::tokenizer::{split_whitespace, tokenize};

#[test]
fn whitespace_class_is_that_of_the_standard_library() {
    for code in 0..=0x10ffffu32 {
        if let Some(c) = char::from_u32(code) {
            assert_eq!(char_is_whitespace(c), c.is_whitespace(), "U+{code:04X}");
        }
    }
}

#[test]
fn whitespace_class_on_named_characters() {
    for c in [' ', '\t', '\n', '\u{b}', '\u{c}', '\r', '\u{85}', '\u{a0}', '\u{1680}', '\u{2000}', '\u{200a}', '\u{2028}', '\u{2029}', '\u{202f}', '\u{205f}', '\u{3000}'] {
        assert!(char_is_whitespace(c));
    }
    for c in ['a', '0', '_', '\u{8}', '\u{e}', '\u{1f}', '\u{180e}', '\u{200b}', '\u{feff}', '越'] {
        assert!(!char_is_whitespace(c));
    }
}

#[test]
fn trim_removes_both_ends_only() {
    assert_eq!(trim("  a b \n"), "a b");
    assert_eq!(trim("a"), "a");
    assert_eq!(trim(""), "");
    assert_eq!(trim(" \t\r\n"), "");
    assert_eq!(trim("\u{a0}x\u{3000}"), "x");
    assert_eq!(trim("x\u{200b}"), "x\u{200b}");
}

#[test]
fn trim_agrees_with_the_standard_library() {
    for s in ["", " ", "a", " a", "a ", "\tä ö\u{2003}", "\u{85}\u{85}", "  中 文  ", "\u{feff}a "] {
        assert_eq!(trim(s), s.trim());
    }
}

#[test]
fn prefix_is_compared_character_by_character() {
    assert!(has_prefix("//example.com", "//"));
    assert!(has_prefix("//", "//"));
    assert!(has_prefix("abc", ""));
    assert!(has_prefix("", ""));
    assert!(!has_prefix("/", "//"));
    assert!(!has_prefix("", "//"));
    assert!(!has_prefix("/a/", "//"));
    assert!(!has_prefix("https://x", "//"));
    assert!(has_prefix("äb", "ä"));
}

#[test]
fn words_are_cut_at_runs_of_whitespace() {
    assert_eq!(split_whitespace("a b"), vec!["a", "b"]);
    assert_eq!(split_whitespace("  a \t\n b  "), vec!["a", "b"]);
    assert_eq!(split_whitespace("hello"), vec!["hello"]);
    assert_eq!(split_whitespace(""), Vec::<String>::new());
    assert_eq!(split_whitespace(" \n "), Vec::<String>::new());
    assert_eq!(split_whitespace("a,b c.d"), vec!["a,b", "c.d"]);
    assert_eq!(split_whitespace("a\u{3000}b\u{a0}c"), vec!["a", "b", "c"]);
}

#[test]
fn words_agree_with_the_standard_library() {
    for s in ["", " ", "a", " a  b ", "x\ty\nz", "one\u{2028}two", "\u{1680}", "a\u{200b}b c"] {
        let expected: Vec<String> = s.split_whitespace().map(|w| w.to_string()).collect();
        assert_eq!(split_whitespace(s), expected);
    }
}

#[test]
fn terms_are_lower_case_words() {
    assert_eq!(tokenize("Hello  WORLD"), vec!["hello", "world"]);
    assert_eq!(tokenize(""), Vec::<String>::new());
    assert_eq!(tokenize("   "), Vec::<String>::new());
    assert_eq!(tokenize("Rust, the Language!"), vec!["rust,", "the", "language!"]);
    assert_eq!(tokenize("ÄÖ Ü"), vec!["äö", "ü"]);
    assert_eq!(tokenize("ΟΔΟΣ ΟΔΟΣ."), vec!["οδος", "οδος."]);
}
