use html_parser::attributes::Attributes;
use html_parser::outline;
use html_parser::utils::{
    match_attributes, match_identifier, match_literal, match_string, or,
};

#[test]
fn literal_rest_follows_the_literal() {
    let input = "abc";
    let rest = match_literal("ab")(input).unwrap();
    assert_eq!(rest, "c");
    assert_eq!(format!("{}{}", "ab", rest), input);
}

#[test]
fn literal_mismatch_reports_the_literal() {
    assert_eq!(
        Err(String::from("Couldn't match the result for x")),
        match_literal("x")("abc")
    );
    assert_eq!(
        Err(String::from("Couldn't match the result for abcd")),
        match_literal("abcd")("abc")
    );
}

#[test]
fn literal_counts_characters_not_bytes() {
    assert_eq!(Ok("ß!"), match_literal("é")("éß!"));
    assert_eq!(
        Err(String::from("Couldn't match the result for é")),
        match_literal("é")("e\u{301}")
    );
}

#[test]
fn or_takes_the_first_success() {
    let end = or(match_literal("/>"), match_literal(">"));
    assert_eq!(Ok(" tail"), end("/> tail"));
}

#[test]
fn or_falls_back_to_the_second_parser() {
    let end = or(match_literal("/>"), match_literal(">"));
    assert_eq!(Ok("x"), end(">x"));
}

#[test]
fn or_reports_the_second_error() {
    let end = or(match_literal("/>"), match_literal(">"));
    assert_eq!(Err(String::from("Couldn't match the result for >")), end("x"));
}

#[test]
fn identifier_is_read_after_trimming() {
    assert_eq!(
        Ok(("=c", String::from("a-1b"))),
        match_identifier("  a-1b=c")
    );
}

#[test]
fn identifier_may_begin_with_any_visible_character() {
    assert_eq!(Ok((" x", String::from("="))), match_identifier("= x"));
    assert_eq!(Ok(("", String::from("=x"))), match_identifier("=x"));
}

#[test]
fn identifier_takes_unicode_letters_and_digits() {
    assert_eq!(Ok((" x", String::from("été٣"))), match_identifier("été٣ x"));
}

#[test]
fn identifier_of_blank_text_is_invalid() {
    assert_eq!(Err(String::from("Invalid identifier")), match_identifier("   "));
    assert_eq!(Err(String::from("Invalid identifier")), match_identifier(""));
}

#[test]
fn outline_identifier_must_begin_with_a_letter() {
    assert_eq!(
        Err(String::from("Invalid identifier")),
        outline::match_identifier("=x")
    );
    assert_eq!(
        Err(String::from("Invalid identifier")),
        outline::match_identifier("1x")
    );
}

#[test]
fn outline_identifier_is_not_trimmed() {
    assert_eq!(
        Err(String::from("Invalid identifier")),
        outline::match_identifier(" div")
    );
    assert_eq!(Ok((" ", String::from("é1"))), outline::match_identifier("é1 "));
}

#[test]
fn quoted_value_needs_an_opening_quote() {
    assert_eq!(
        Err(String::from("Couldn't match the result for \"")),
        match_string("abc\"")
    );
}

#[test]
fn quoted_value_needs_a_closing_quote() {
    assert_eq!(
        Err(String::from("Not closing attribute value")),
        match_string("  \"abc")
    );
}

#[test]
fn quoted_value_may_be_empty() {
    assert_eq!(Ok(("x", String::new())), match_string("\"\"x"));
}

#[test]
fn quoted_value_and_rest_rebuild_the_trimmed_line() {
    let line = "  \"a b\" c=\"d\"  ";
    let (rest, value) = match_string(line).unwrap();
    assert_eq!(format!("\"{}\"{}", value, rest), line.trim());
    assert!(!value.contains('"'));
}

#[test]
fn attributes_of_a_bare_tag_end() {
    assert_eq!(Ok((">", Attributes::new())), match_attributes("  >  "));
    assert_eq!(Ok(("/>", Attributes::new())), match_attributes("/>"));
}

#[test]
fn later_attribute_value_replaces_earlier() {
    let expected = Attributes::from_pairs(vec![(String::from("a"), String::from("2"))]);
    let (rest, attrs) = match_attributes("a=\"1\" a=\"2\" >").unwrap();
    assert_eq!(rest, ">");
    assert_eq!(attrs, expected);
    assert_eq!(attrs.len(), 1);
    assert_eq!(attrs.get("a"), Some(&String::from("2")));
}

#[test]
fn attribute_without_equals_sign_fails() {
    assert_eq!(
        Err(String::from("Couldn't match the result for =")),
        match_attributes("b>")
    );
    assert_eq!(
        Err(String::from("Couldn't match the result for =")),
        match_attributes("a = \"1\" >")
    );
}

#[test]
fn attributes_must_end_at_a_tag_end() {
    assert_eq!(
        Err(String::from("Invalid identifier")),
        match_attributes("a=\"1\"")
    );
    assert_eq!(
        Err(String::from("Couldn't match the result for =")),
        match_attributes("/ >")
    );
}

#[test]
fn attributes_map_ignores_order() {
    let one = Attributes::from_pairs(vec![
        (String::from("a"), String::from("1")),
        (String::from("b"), String::from("2")),
    ]);
    let two = Attributes::from_pairs(vec![
        (String::from("b"), String::from("2")),
        (String::from("a"), String::from("1")),
    ]);
    let three = Attributes::from_pairs(vec![
        (String::from("b"), String::from("3")),
        (String::from("a"), String::from("1")),
    ]);
    assert_eq!(one, two);
    assert_ne!(one, three);
    assert_ne!(one, Attributes::new());
}

#[test]
fn attributes_insert_then_get() {
    let mut a = Attributes::new();
    a.insert(String::from("k"), String::from("v"));
    a.insert(String::from("j"), String::from("w"));
    a.insert(String::from("k"), String::from("x"));
    assert_eq!(a.get("k"), Some(&String::from("x")));
    assert_eq!(a.get("j"), Some(&String::from("w")));
    assert_eq!(a.get("z"), None);
    assert_eq!(a.len(), 2);
}

#[test]
fn written_attributes_read_back() {
    let pairs = vec![
        (String::from("data-x"), String::from("a b")),
        (String::from("b"), String::from("")),
        (String::from("data-x"), String::from("c")),
    ];
    let mut line = String::new();
    for (k, v) in &pairs {
        line.push_str(&format!("{}=\"{}\" ", k, v));
    }
    for t in ["/>", ">"] {
        let text = format!("{}{}", line, t);
        let expected = Attributes::from_pairs(pairs.clone());
        assert_eq!(Ok((t, expected)), match_attributes(&text));
        let expected = Attributes::from_pairs(pairs.clone());
        assert_eq!(Ok((t, expected)), outline::match_attributes(&text));
    }
}

#[test]
fn attributes_leave_the_end_of_the_trimmed_line() {
    let line = "  a=\"1\"   b= \"2\"  />  ";
    let (rest, _) = match_attributes(line).unwrap();
    assert!(line.trim().ends_with(rest));
    assert_eq!(rest, "/>");
}

#[test]
fn names_beginning_with_non_ascii_letters_read_back() {
    let text = "été=\"1\" ñ-2=\"x y\" />";
    let expected = Attributes::from_pairs(vec![
        (String::from("été"), String::from("1")),
        (String::from("ñ-2"), String::from("x y")),
    ]);
    assert_eq!(Ok(("/>", expected)), outline::match_attributes(text));
    let expected = Attributes::from_pairs(vec![
        (String::from("été"), String::from("1")),
        (String::from("ñ-2"), String::from("x y")),
    ]);
    assert_eq!(Ok(("/>", expected)), match_attributes(text));
}

#[test]
fn no_white_space_character_is_alphabetic() {
    for u in 0u32..=0x10ffff {
        if let Some(c) = char::from_u32(u) {
            if c.is_whitespace() {
                assert!(!html_parser::unicode::is_alphabetic(c), "at U+{:04X}", u);
            }
        }
    }
}
