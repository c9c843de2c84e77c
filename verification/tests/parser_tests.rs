use html_parser::attributes::Attributes;
use html_parser::parser::{html_to_node, process, Node};

#[test]
fn mod_test_processing_simple_html() {
    let html = "<html>
                            <body>
                            </body>
                        </html>";

    let node = Node {
        name: "html".into(),
        attributes: Attributes::new(),
        children: vec![
            Node {
                name: "body".into(),
                attributes: Attributes::new(),
                children: Vec::new(),
                content: String::new()
            }
        ],
        content: String::new()
    };

    assert_eq!(Ok(("".into(), node)), process(html.into()));
}

#[test]
fn mod_process_html_with_selfclosing() {
    let html = "<html>
        <body />
        </html>";

    let node = Node {
        attributes: Attributes::new(),
        name: "html".into(),
        children: vec![
            Node {
                name: "body".into(),
                attributes: Attributes::new(),
                children: Vec::new(),
                content: String::new(),
            }
        ],
        content: String::new()
    };

    assert_eq!(
        Ok(("".into(), node)),
        process(html.into())
    );
}

#[test]
fn mod_test_process_html_line() {
    let html_line = "<div class=\"container flex\" width=\"180\" height=\"100\" />";
    let attrs = Attributes::from_pairs(vec![
        (String::from("class"), String::from("container flex")),
        (String::from("width"), String::from("180")),
        (String::from("height"), String::from("100"))
    ]);
    let node = Node {
        name: "div".into(),
        attributes: attrs,
        children: Vec::new(),
        content: String::new()
    };

    assert_eq!(
        Ok(node),
        html_to_node(html_line)
    )

}
