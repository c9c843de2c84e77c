//! Reading a document into a tree of nodes. Names are read as
//! `utils::match_identifier` reads them.
use vstd::prelude::*;

use crate::attributes::Attributes;
use crate::model::{
    leaf, lemma_process_text_step, parse_element, parse_end, process_lines, process_text,
    with_children, Dialect, NodeView, Outcome,
};
use crate::text::{
    join_lines, join_strings, lemma_join_drop_first, lemma_join_lines_of_len, lemma_trim_len,
    lines_view, split_lines, str_ends_with, str_starts_with, trim_str,
};
use crate::utils::{match_literal, or, read_attributes, read_name, text_result};

verus! {

/// A node of a document: a tag name, its attributes, the nodes nested in it
/// and the text it holds.
#[derive(Debug, PartialEq)]
pub struct Node {
    pub name: String,
    pub attributes: Attributes,
    pub children: Vec<Node>,
    pub content: String,
}

/// The texts of a node and of everything nested in it.
pub open spec fn node_view(n: Node) -> NodeView
    decreases n,
{
    NodeView {
        name: n.name@,
        attributes: n.attributes@,
        children: Seq::new(
            n.children@.len(),
            |i: int|
                {
                    proof {
                        assert(decreases_to!(n => n.children));
                    }
                    if 0 <= i < n.children@.len() {
                        node_view(n.children@[i])
                    } else {
                        leaf(Seq::empty(), Map::empty())
                    }
                },
        ),
        content: n.content@,
    }
}

/// The texts of a list of nodes.
pub open spec fn nodes_view(v: Seq<Node>) -> Seq<NodeView> {
    Seq::new(v.len(), |i: int| node_view(v[i]))
}

impl View for Node {
    type V = NodeView;

    open spec fn view(&self) -> NodeView {
        node_view(*self)
    }
}

/// The texts of the result of reading one tag.
pub open spec fn element_result(r: Result<Node, String>) -> Result<NodeView, Seq<char>> {
    match r {
        Ok(n) => Ok(n@),
        Err(e) => Err(e@),
    }
}

/// The texts of the result of reading a document; `None` stands for an
/// input on which reading does not finish.
pub open spec fn document_outcome(r: Option<Result<(String, Node), String>>) -> Outcome<
    Result<(Seq<char>, NodeView), Seq<char>>,
> {
    match r {
        None => Outcome::Stuck,
        Some(Ok((rest, n))) => Outcome::Finished(Ok((rest@, n@))),
        Some(Err(e)) => Outcome::Finished(Err(e@)),
    }
}

impl Node {
    /// A node with no name, no attributes, no children and no text.
    fn new() -> (n: Node)
        ensures
            n@ == leaf(Seq::empty(), Map::empty()),
    {
        let n = Node {
            name: String::new(),
            attributes: Attributes::new(),
            children: Vec::new(),
            content: String::new(),
        };
        assert(n@.children =~= Seq::<NodeView>::empty());
        n
    }
}

/// Reads one tag from `line` in the way of dialect `d`.
pub(crate) fn read_element(d: Dialect, line: &str) -> (r: Result<Node, String>)
    ensures
        element_result(r) == parse_element(d, line@),
{
    let match_opening = match_literal("<");
    let closing = match_literal("/>");
    let closing_short = match_literal(">");
    let match_end_of_line = or(closing, closing_short);
    proof {
        reveal_strlit("<");
        reveal_strlit("/>");
        reveal_strlit(">");
        assert("<"@ =~= seq!['<']);
        assert("/>"@ =~= seq!['/', '>']);
        assert(">"@ =~= seq!['>']);
    }
    let mut node = Node::new();
    let rest = match match_opening(line) {
        Ok(r) => r,
        Err(e) => {
            return Err(e);
        },
    };
    let (rest, name) = match read_name(d, rest) {
        Ok(x) => x,
        Err(e) => {
            return Err(e);
        },
    };
    node.name = name;
    let (rest, attributes) = match read_attributes(d, rest) {
        Ok(x) => x,
        Err(e) => {
            return Err(e);
        },
    };
    node.attributes = attributes;
    let end = match_end_of_line(rest);
    proof {
        assert(text_result(end) == parse_end(rest@));
    }
    match end {
        Ok(_) => {},
        Err(e) => {
            return Err(e);
        },
    }
    proof {
        assert(node@.children =~= Seq::<NodeView>::empty());
    }
    Ok(node)
}

/// Reads one tag from `line`: `<`, a name, attributes and `/>` or `>`.
/// The node has no children and no text.
pub fn html_to_node(line: &str) -> (r: Result<Node, String>)
    ensures
        element_result(r) == parse_element(Dialect::Document, line@),
{
    read_element(Dialect::Document, line)
}

/// Adding a node to a list adds its texts to the list's texts.
proof fn lemma_nodes_view_push(v: Seq<Node>, n: Node)
    ensures
        nodes_view(v.push(n)) == nodes_view(v).push(node_view(n)),
{
    assert(nodes_view(v.push(n)) =~= nodes_view(v).push(node_view(n)));
}

/// Reads a document from `html` in the way of dialect `d`; `None` where
/// reading would not finish.
pub(crate) fn read_document(d: Dialect, html: &str) -> (r: Option<Result<(String, Node), String>>)
    ensures
        document_outcome(r) == process_text(d, html@),
        r matches Some(Ok((rest, _))) ==> rest@.len() < html@.len(),
    decreases html@.len(),
{
    let html_t = trim_str(html);
    let mut lines = split_lines(html_t);
    let ghost ls = lines_view(lines@);
    if lines.len() == 0 {
        return None;
    }
    proof {
        lemma_process_text_step(html@);
        lemma_trim_len(html@);
        lemma_join_lines_of_len(html_t@);
        assert(lines_view(lines@)[0] == lines@[0]@);
    }
    let first_trimmed = trim_str(lines[0].as_str());
    if str_ends_with(first_trimmed, "/>") {
        proof {
            reveal_strlit("/>");
            assert("/>"@ =~= seq!['/', '>']);
        }
        let first = lines.remove(0);
        proof {
            assert(lines_view(lines@) =~= ls.drop_first());
        }
        match read_element(d, first.as_str()) {
            Err(e) => {
                return Some(Err(e));
            },
            Ok(n) => {
                return Some(Ok((join_strings(&lines), n)));
            },
        }
    }
    proof {
        reveal_strlit("/>");
        assert("/>"@ =~= seq!['/', '>']);
    }
    let first = lines.remove(0);
    proof {
        assert(lines_view(lines@) =~= ls.drop_first());
    }
    let mut node = match read_element(d, first.as_str()) {
        Err(e) => {
            return Some(Err(e));
        },
        Ok(n) => n,
    };
    let ghost head = node@;
    let mut children: Vec<Node> = Vec::new();
    proof {
        assert(nodes_view(children@) =~= Seq::<NodeView>::empty());
    }
    loop
        invariant_except_break
            ls.len() > 0,
            process_text(d, html@) == with_children(head, process_lines(d, ls.drop_first(), seq![])),
            process_lines(d, lines_view(lines@), nodes_view(children@)) == process_lines(
                d,
                ls.drop_first(),
                seq![],
            ),
            join_lines(lines_view(lines@)).len() < html@.len(),
            node@ == head,
        ensures
            ls.len() > 0,
            process_text(d, html@) == with_children(head, process_lines(d, ls.drop_first(), seq![])),
            process_lines(d, ls.drop_first(), seq![]) == Outcome::Finished(
                Ok::<(Seq<Seq<char>>, Seq<NodeView>), Seq<char>>(
                    (lines_view(lines@), nodes_view(children@)),
                ),
            ),
            join_lines(lines_view(lines@)).len() < html@.len(),
            node@ == head,
        decreases join_lines(lines_view(lines@)).len(), lines.len(),
    {
        if lines.len() == 0 {
            return None;
        }
        let ghost lv = lines_view(lines@);
        let ghost cv = nodes_view(children@);
        proof {
            assert(lv[0] == lines@[0]@);
            lemma_join_drop_first(lv);
        }
        let next_line = lines[0].clone();
        let next_line = trim_str(next_line.as_str());
        proof {
            reveal_strlit("</");
            reveal_strlit("<");
            reveal_strlit("/>");
            assert("</"@ =~= seq!['<', '/']);
            assert("<"@ =~= seq!['<']);
            assert("/>"@ =~= seq!['/', '>']);
        }
        if str_starts_with(next_line, "</") {
            lines.remove(0);
            proof {
                assert(lines_view(lines@) =~= lv.drop_first());
            }
            break;
        } else if str_starts_with(next_line, "<") {
            if str_ends_with(next_line, "/>") {
                lines.remove(0);
                proof {
                    assert(lines_view(lines@) =~= lv.drop_first());
                }
                match read_element(d, next_line) {
                    Err(e) => {
                        return Some(Err(e));
                    },
                    Ok(n) => {
                        proof {
                            lemma_nodes_view_push(children@, n);
                        }
                        children.push(n);
                    },
                }
                continue;
            }
            let joined = join_strings(&lines);
            match read_document(d, joined.as_str()) {
                None => {
                    return None;
                },
                Some(Err(e)) => {
                    return Some(Err(e));
                },
                Some(Ok((rest, new_node))) => {
                    lines = split_lines(rest.as_str());
                    proof {
                        lemma_join_lines_of_len(rest@);
                        lemma_nodes_view_push(children@, new_node);
                    }
                    children.push(new_node);
                },
            }
        } else {
            match d {
                Dialect::Outline => {
                    break;
                },
                Dialect::Document => {
                    return None;
                },
            }
        }
    }
    node.children = children;
    proof {
        assert(node@.children =~= nodes_view(node.children@));
    }
    Some(Ok((join_strings(&lines), node)))
}

/// The texts of the result of reading a document.
pub open spec fn document_result(r: Result<(String, Node), String>) -> Result<
    (Seq<char>, NodeView),
    Seq<char>,
> {
    match r {
        Ok((rest, n)) => Ok((rest@, n@)),
        Err(e) => Err(e@),
    }
}

/// Reads the first element of `html` with everything nested in it, and
/// returns the text after it (its lines joined with line feeds) and the
/// element. Reading stops with the error of the first tag that cannot be
/// read. Defined where reading finishes: the document must not run out of
/// lines inside an element, and no line of text may stand among the
/// children of an element (the reader would never get past it).
pub fn process(html: String) -> (r: Result<(String, Node), String>)
    requires
        process_text(Dialect::Document, html@) is Finished,
    ensures
        process_text(Dialect::Document, html@) == Outcome::Finished(document_result(r)),
{
    match read_document(Dialect::Document, html.as_str()) {
        Some(r) => r,
        None => Err(String::new()),
    }
}

/// Whether reading `html` in the way of dialect `d` finishes.
pub(crate) fn reading_finishes(d: Dialect, html: &str) -> (b: bool)
    ensures
        b == (process_text(d, html@) is Finished),
{
    read_document(d, html).is_some()
}

/// `process` on every input: `None` where reading would not finish.
pub fn try_process(html: String) -> (r: Option<Result<(String, Node), String>>)
    ensures
        document_outcome(r) == process_text(Dialect::Document, html@),
{
    if reading_finishes(Dialect::Document, html.as_str()) {
        Some(process(html))
    } else {
        None
    }
}

} // verus!
