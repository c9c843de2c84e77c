use html_parser::attributes::Attributes;
use html_parser::outline::{
    html_to_node, match_attributes, match_identifier, match_literal, match_string, or, process,
    Node,
};

#[test]
fn parser_test_processing_simple_html() {
    let html = "<html>
                            <body>
                            </body>
                        </html>";

    let node = Node {
        name: "html".into(),
        attributes: Attributes::new(),
        children: vec![
            Node {
                name: "body".into(),
                attributes: Attributes::new(),
                children: Vec::new()
            }
        ]
    };

    assert_eq!(Ok(("".into(), node)), process(html.into()));
}

#[test]
fn parser_process_html_with_selfclosing() {
    let html = "<html>
        <body />
        </html>";

    let node = Node {
        attributes: Attributes::new(),
        name: "html".into(),
        children: vec![
            Node {
                name: "body".into(),
                attributes: Attributes::new(),
                children: Vec::new()
            }
        ]
    };

    assert_eq!(
        Ok(("".into(), node)),
        process(html.into())
    );
}

#[test]
fn parser_test_match_literal() {
    let parse_opening_chevron = match_literal("<");
    let html_line = "<div/>";

    assert_eq!(Ok("div/>"), parse_opening_chevron(html_line));
}

#[test]
fn parser_test_match_string() {
    let test_str = "\"test test test \" anotherthing";

    assert_eq!(
        Ok((" anotherthing", String::from("test test test "))),
        match_string(test_str)
    );
}

#[test]
fn parser_test_match_identifier() {
    let html_line = "div anything=\"another-thing\"";

    assert_eq!(
        Ok((" anything=\"another-thing\"", "div".into())),
        match_identifier(html_line)
    );
}

#[test]
fn parser_test_match_attributes() {
    let attrs_line = " class=\"class-test\" width=\"180\" height=\"180\" />";
    let expected_map = Attributes::from_pairs(vec![
        (String::from("class"), String::from("class-test")),
        (String::from("width"), String::from("180")),
        (String::from("height"), String::from("180"))
    ]);

    assert_eq!(Ok(("/>", expected_map)), match_attributes(attrs_line));
}

#[test]
fn parser_test_process_html_line() {
    let html_line = "<div class=\"container flex\" width=\"180\" height=\"100\" />";
    let attrs = Attributes::from_pairs(vec![
        (String::from("class"), String::from("container flex")),
        (String::from("width"), String::from("180")),
        (String::from("height"), String::from("100"))
    ]);
    let node = Node {
        name: "div".into(),
        attributes: attrs,
        children: Vec::new()
    };

    assert_eq!(
        Ok(node),
        html_to_node(html_line)
    )
}

#[test]
fn parser_test_match_one_or_other() {
    let match_end_of_line = or(
        match_literal("/>"),
        match_literal(">")
    );

    let line = ">";

    assert_eq!(Ok(""), match_end_of_line(line))
}
