use html_parser::attributes::Attributes;
use html_parser::outline;
use html_parser::parser::{html_to_node, process, try_process, Node};

fn leaf(name: &str) -> Node {
    Node {
        name: name.into(),
        attributes: Attributes::new(),
        children: Vec::new(),
        content: String::new(),
    }
}

fn outline_leaf(name: &str) -> outline::Node {
    outline::Node { name: name.into(), attributes: Attributes::new(), children: Vec::new() }
}

#[test]
fn tag_must_open_with_a_chevron() {
    assert_eq!(
        Err(String::from("Couldn't match the result for <")),
        html_to_node("div>")
    );
}

#[test]
fn tag_without_a_name_is_invalid() {
    assert_eq!(Err(String::from("Invalid identifier")), html_to_node("<>"));
    assert_eq!(
        Err(String::from("Invalid identifier")),
        outline::html_to_node("<>")
    );
}

#[test]
fn text_after_a_tag_is_read_as_attributes() {
    assert_eq!(
        Err(String::from("Couldn't match the result for =")),
        html_to_node("<p> more")
    );
    assert_eq!(Ok(leaf("p")), html_to_node("<p  >  "));
}

#[test]
fn self_closing_first_line_is_a_whole_element() {
    assert_eq!(
        Ok((String::from("rest line"), leaf("br"))),
        process(String::from("<br/>\nrest line"))
    );
}

#[test]
fn surrounding_space_is_ignored() {
    assert_eq!(
        process(String::from("<a/>")),
        process(String::from("  \n <a/>  \n"))
    );
}

#[test]
fn nested_elements_form_a_tree() {
    let html = "<a>\n  <b>\n    <c/>\n  </b>\n  <d x=\"1\"/>\n</a>\ntail";
    let mut d = leaf("d");
    d.attributes.insert(String::from("x"), String::from("1"));
    let b = Node { children: vec![leaf("c")], ..leaf("b") };
    let a = Node { children: vec![b, d], ..leaf("a") };
    let (rest, node) = process(String::from(html)).unwrap();
    assert_eq!(rest, "tail");
    assert_eq!(node, a);
    assert!(rest.len() < html.len());
}

#[test]
fn carriage_returns_before_line_feeds_are_dropped() {
    assert_eq!(
        Ok((String::from("x\ny"), leaf("a"))),
        process(String::from("<a/>\r\nx\r\ny"))
    );
}

#[test]
fn error_of_a_child_is_reported() {
    assert_eq!(
        Ok(Err(String::from("Couldn't match the result for ="))),
        try_process(String::from("<a>\n<b c/>\n</a>")).ok_or(())
    );
}

#[test]
fn reading_does_not_finish_on_empty_input() {
    assert_eq!(None, try_process(String::new()));
    assert_eq!(None, try_process(String::from(" \n ")));
    assert_eq!(None, outline::try_process(String::new()));
}

#[test]
fn reading_does_not_finish_without_closing_line() {
    assert_eq!(None, try_process(String::from("<a>\n<b/>")));
    assert_eq!(None, outline::try_process(String::from("<a>")));
}

#[test]
fn document_reader_never_gets_past_text() {
    assert_eq!(None, try_process(String::from("<a>\nhello\n</a>")));
}

#[test]
fn outline_reader_stops_children_at_text() {
    let a = outline::Node { children: vec![outline_leaf("b")], ..outline_leaf("a") };
    assert_eq!(
        Some(Ok((String::from("text\n</a>"), a))),
        outline::try_process(String::from("<a>\n<b/>\ntext\n</a>"))
    );
}

#[test]
fn outline_names_must_begin_with_a_letter() {
    assert_eq!(
        Some(Err(String::from("Invalid identifier"))),
        outline::try_process(String::from("<a>\n<1b/>\n</a>"))
    );
    let a = Node { children: vec![leaf("1b")], ..leaf("a") };
    assert_eq!(
        Some(Ok((String::new(), a))),
        try_process(String::from("<a>\n<1b/>\n</a>"))
    );
}

#[test]
fn document_nodes_hold_no_text() {
    let (_, node) = process(String::from("<a>\n<b>\n</b>\n<c/>\n</a>")).unwrap();
    assert!(node.content.is_empty());
    assert!(node.children.iter().all(|c| c.content.is_empty()));
}

#[test]
fn closing_tag_name_is_not_compared() {
    assert_eq!(
        Ok((String::new(), leaf("a"))),
        process(String::from("<a>\n</b>"))
    );
}

#[test]
fn rest_is_a_tail_of_the_trimmed_lines() {
    let html = "  <a>\n<b>\n</b>\n</a>\nx\n  y  ";
    let (rest, _) = process(String::from(html)).unwrap();
    let lines: Vec<&str> = html.trim().lines().collect();
    assert_eq!(rest, lines[4..].join("\n"));
}

#[test]
fn carriage_return_inside_a_line_is_dropped_after_a_nested_element() {
    let html = "<a>\n<b>\n</b>\nx\r\r\ny";
    assert_eq!(
        Some(Ok((String::from("x\ny"), outline::Node {
            children: vec![outline_leaf("b")],
            ..outline_leaf("a")
        }))),
        outline::try_process(String::from(html))
    );
}

#[test]
fn try_process_agrees_with_process() {
    let html = "<a>\n<b c=\"d\"/>\n</a>\nrest";
    assert_eq!(Some(process(String::from(html))), try_process(String::from(html)));
    assert_eq!(
        Some(outline::process(String::from(html))),
        outline::try_process(String::from(html))
    );
}
