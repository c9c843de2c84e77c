use html_parser::attributes::Attributes;
use html_parser::utils::{
    match_attributes, match_identifier, match_literal, match_string, or,
};

#[test]
fn mod_test_match_literal() {
    let parse_opening_chevron = match_literal("<");
    let html_line = "<div/>";

    assert_eq!(Ok("div/>"), parse_opening_chevron(html_line));
}

#[test]
fn mod_test_match_string() {
    let test_str = "\"test test test \" anotherthing";

    assert_eq!(
        Ok((" anotherthing", String::from("test test test "))),
        match_string(test_str)
    );
}

#[test]
fn mod_test_match_identifier() {
    let html_line = "div anything=\"another-thing\"";

    assert_eq!(
        Ok((" anything=\"another-thing\"", "div".into())),
        match_identifier(html_line)
    );
}

#[test]
fn mod_test_match_attributes() {
    let attrs_line = " class=\"class-test\" width=\"180\" height=\"180\" />";
    let expected_map = Attributes::from_pairs(vec![
        (String::from("class"), String::from("class-test")),
        (String::from("width"), String::from("180")),
        (String::from("height"), String::from("180"))
    ]);

    assert_eq!(Ok(("/>", expected_map)), match_attributes(attrs_line));
}

#[test]
fn mod_test_match_one_or_other() {
    let match_end_of_line = or(
        match_literal("/>"),
        match_literal(">")
    );

    let line = ">";

    assert_eq!(Ok(""), match_end_of_line(line))
}
