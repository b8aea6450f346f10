use net_tools::text::{
    chars_of, decimal, join, same, segment_before, starts_with, trim, white_space,
};

#[test]
fn white_space_is_that_of_unicode() {
    for code in 0..=0x10_ffffu32 {
        if let Some(c) = char::from_u32(code) {
            assert_eq!(white_space(c), c.is_whitespace(), "U+{:04X}", code);
        }
    }
}

#[test]
fn trimming_takes_white_space_from_both_ends() {
    assert_eq!(trim("  example.com\t\r\n"), "example.com");
    assert_eq!(trim("\u{a0}\u{3000}a b\u{2029}"), "a b");
    assert_eq!(trim(" \t "), "");
    assert_eq!(trim(""), "");
    assert_eq!(trim("\u{e9} \u{200b}"), "\u{e9} \u{200b}");
    assert_eq!(trim("\u{e9} \u{200b}"), "\u{e9} \u{200b}".trim());
}

#[test]
fn segments_end_before_the_separator() {
    assert_eq!(segment_before("a, b, c", ','), "a");
    assert_eq!(segment_before("abc", ','), "abc");
    assert_eq!(segment_before(",a", ','), "");
    assert_eq!(segment_before("", ','), "");
    assert_eq!(segment_before("\u{e9}\u{e8},x", ','), "\u{e9}\u{e8}");
}

#[test]
fn prefixes_are_recognised() {
    assert!(starts_with("v=spf1 -all", "v=spf1"));
    assert!(starts_with("v=spf1", "v=spf1"));
    assert!(!starts_with("v=spf", "v=spf1"));
    assert!(!starts_with("V=spf1", "v=spf1"));
    assert!(starts_with("", ""));
}

#[test]
fn numbers_are_written_in_base_ten() {
    for n in [0usize, 1, 9, 10, 42, 99, 100, 65535, usize::MAX] {
        assert_eq!(decimal(n), n.to_string());
    }
}

#[test]
fn parts_are_joined() {
    let parts = vec!["a".to_string(), "".to_string(), "b;c".to_string()];
    assert_eq!(join(&parts, ";"), "a;;b;c");
    assert_eq!(join(&Vec::new(), ";"), "");
    assert_eq!(join(&vec!["x".to_string()], ";"), "x");
}

#[test]
fn characters_and_equality() {
    assert_eq!(chars_of("a\u{1f600}b"), vec!['a', '\u{1f600}', 'b']);
    assert!(same("host", "host"));
    assert!(!same("host", "Host"));
}
