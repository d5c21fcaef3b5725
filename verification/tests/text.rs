use paladin_commenter::text::{
    blank, chars_of, contains, has_prefix, hex_of, is_whitespace, join_between, lines_of,
    newline_counts, padded_decimal, push_decimal, same_text, slice_bytes, trimmed, trimmed_end,
    trimmed_end_matches, trimmed_start,
};

const SAMPLES: [&str; 12] = [
    "",
    " ",
    "abc",
    "  abc  ",
    "\t\n x y \r\n",
    "a\nb\nc",
    "a\r\nb\r\n",
    "a\rb\r",
    "\n\n",
    "\r\n\r",
    "\u{a0}\u{3000}h\u{e9}llo \u{1f600}\u{2028}",
    "line\u{85}end\n\nlast\r",
];

#[test]
fn whitespace_is_that_of_the_standard_library() {
    for n in 0u32..0x110000 {
        if let Some(c) = char::from_u32(n) {
            assert_eq!(is_whitespace(c), c.is_whitespace(), "{:x}", n);
        }
    }
}

#[test]
fn trimming_is_that_of_the_standard_library() {
    for s in SAMPLES {
        assert_eq!(trimmed(s), s.trim());
        assert_eq!(trimmed_start(s), s.trim_start());
        assert_eq!(trimmed_end(s), s.trim_end());
        assert_eq!(blank(s), s.trim().is_empty());
        assert_eq!(trimmed_end_matches(s, '\n'), s.trim_end_matches('\n'));
    }
    assert_eq!(trimmed_end_matches("http://host//", '/'), "http://host");
    assert_eq!(trimmed_end_matches("///", '/'), "");
}

#[test]
fn lines_are_those_of_the_standard_library() {
    for s in SAMPLES {
        let expected: Vec<String> = s.lines().map(|l| l.to_string()).collect();
        assert_eq!(lines_of(s), expected);
    }
}

#[test]
fn parts_are_joined() {
    let parts = vec!["a".to_string(), "".to_string(), "c".to_string()];
    assert_eq!(join_between(&parts, 0, 3, ", "), "a, , c");
    assert_eq!(join_between(&parts, 1, 2, ", "), "");
    assert_eq!(join_between(&parts, 1, 1, ", "), "");
    assert_eq!(join_between(&parts, 2, 3, ", "), "c");
}

#[test]
fn searching_text() {
    assert!(has_prefix("```rust", "```"));
    assert!(!has_prefix("``", "```"));
    assert!(has_prefix("x", ""));
    assert!(contains("a```b", "```"));
    assert!(!contains("a``b`", "```"));
    assert!(contains("", ""));
    assert!(same_text("h\u{e9}", "h\u{e9}"));
    assert!(!same_text("h\u{e9}", "he"));
    assert!(!same_text("ab", "abc"));
    assert_eq!(chars_of("h\u{e9}"), vec!['h', '\u{e9}']);
}

#[test]
fn numbers_are_written() {
    for n in [0usize, 7, 10, 99, 100, 999, 1000, 12345, usize::MAX] {
        let mut s = "n=".to_string();
        push_decimal(&mut s, n);
        assert_eq!(s, format!("n={}", n));
        assert_eq!(padded_decimal(n, 3), format!("{:03}", n));
    }
    assert_eq!(padded_decimal(5, 0), "5");
    assert_eq!(hex_of(&vec![0x00, 0x0f, 0xa9, 0xff]), "000fa9ff");
}

#[test]
fn slices_by_byte_offset() {
    let s = "h\u{e9}llo \u{1f600}!";
    assert_eq!(slice_bytes(s, 0, 3), "h\u{e9}");
    assert_eq!(slice_bytes(s, 3, 7), "llo ");
    assert_eq!(slice_bytes(s, 7, 11), "\u{1f600}");
    assert_eq!(slice_bytes(s, 12, 12), "");
}

#[test]
fn line_feeds_are_counted() {
    assert_eq!(newline_counts(""), vec![0]);
    assert_eq!(newline_counts("a\n\u{e9}\n"), vec![0, 0, 1, 1, 1, 2]);
}
