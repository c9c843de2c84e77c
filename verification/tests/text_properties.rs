use html_parser::text::{
    char_vec, is_whitespace, join_strings, split_lines, str_ends_with, str_eq, str_starts_with,
    trim_start_str, trim_str,
};

const SAMPLES: [&str; 14] = [
    "",
    " ",
    "a",
    "  a b  ",
    "\t\n a\r\n",
    "\u{a0}x\u{3000}",
    "a\nb",
    "a\r\nb\r\n",
    "a\n\nb\n",
    "\n",
    "x\r",
    "x\r\r\ny",
    "é\u{2028}ü\u{85}",
    "\r\n\r\n",
];

#[test]
fn whitespace_agrees_with_char_is_whitespace() {
    for u in 0u32..=0x10ffff {
        if let Some(c) = char::from_u32(u) {
            assert_eq!(is_whitespace(c), c.is_whitespace(), "at U+{:04X}", u);
        }
    }
}

#[test]
fn trimming_agrees_with_str_trim() {
    for s in SAMPLES {
        assert_eq!(trim_str(s), s.trim());
        assert_eq!(trim_start_str(s), s.trim_start());
    }
}

#[test]
fn lines_agree_with_str_lines() {
    for s in SAMPLES {
        let expected: Vec<String> = s.lines().map(String::from).collect();
        assert_eq!(split_lines(s), expected);
    }
}

#[test]
fn joining_agrees_with_join() {
    for s in SAMPLES {
        let lines = split_lines(s);
        assert_eq!(join_strings(&lines), lines.join("\n"));
    }
    assert_eq!(join_strings(&vec![String::new(), String::new()]), "\n");
}

#[test]
fn prefix_suffix_and_equality() {
    assert!(str_starts_with("<div", "<"));
    assert!(!str_starts_with("<", "<div"));
    assert!(str_ends_with("<br/>", "/>"));
    assert!(!str_ends_with(">", "/>"));
    assert!(str_eq("/>", "/>"));
    assert!(!str_eq("/> ", "/>"));
    assert_eq!(char_vec("aé"), vec!['a', 'é']);
}
