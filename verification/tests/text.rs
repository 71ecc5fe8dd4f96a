use ghostrpc::text::{
    cat, chars_of, count_char, ends_with, find_char, has_char, remove_wildcards, rfind_char,
    starts_with, str_eq, trim, white,
};

#[test]
fn characters_are_found() {
    assert_eq!(find_char("a\u{e9}=b=", '='), Some(2));
    assert_eq!(rfind_char("a\u{e9}=b=", '='), Some(4));
    assert_eq!(find_char("abc", '='), None);
    assert_eq!(rfind_char("", '='), None);
    assert!(has_char("a:b", ':'));
    assert!(!has_char("ab", ':'));
    assert_eq!(count_char("a:b::c", ':'), 3);
    assert_eq!(chars_of("a\u{e9}"), vec!['a', '\u{e9}']);
}

#[test]
fn texts_are_compared() {
    assert!(str_eq("abc", "abc"));
    assert!(!str_eq("abc", "abd"));
    assert!(!str_eq("abc", "ab"));
    assert!(starts_with("http://x", "http://"));
    assert!(!starts_with("http", "http://"));
    assert!(ends_with("a.example.com", "example.com"));
    assert!(ends_with("anything", ""));
    assert!(!ends_with("com", "example.com"));
    assert_eq!(cat("a", "b"), "ab");
}

#[test]
fn white_space_is_trimmed_as_std_does() {
    for s in ["", " ", "  a b ", "\t\u{a0}x\u{3000}\n", "x", "\u{85}\u{2028}y\u{205f}", "\u{200b}z"] {
        assert_eq!(trim(s), s.trim());
    }
    for u in 0..0x11_0000u32 {
        if let Some(c) = char::from_u32(u) {
            assert_eq!(white(c), c.is_whitespace());
        }
    }
}

#[test]
fn wildcards_are_removed_as_std_does() {
    for s in ["", "*.", "*.example.com", "a*.b", "**..x", "*.*.x", "plain", "*", "."] {
        assert_eq!(remove_wildcards(s), s.replace("*.", ""));
    }
}
