//! Reading the outline of a document: its tree of tags without text. Names
//! are read as they stand and begin with a letter; a line of text inside an
//! element ends that element's children.
use vstd::prelude::*;

use crate::attributes::Attributes;
use crate::model::{
    clear_outcome, clear_text, leaf, lemma_clear_text_leaf, parse_attributes, parse_element,
    parse_identifier, process_text, Dialect, NodeView, Outcome,
};
use crate::parser;
use crate::properties::law_clear_outcome_identity;
use crate::utils::{attributes_result, named_result, read_attributes, read_name};

pub use crate::utils::{match_literal, match_string, or};

verus! {

/// A node of a document's outline: a tag name, its attributes and the nodes
/// nested in it.
#[derive(Debug, PartialEq)]
pub struct Node {
    pub name: String,
    pub attributes: Attributes,
    pub children: Vec<Node>,
}

/// The texts of a node and of everything nested in it; an outline node
/// holds no text.
pub open spec fn outline_view(n: Node) -> NodeView
    decreases n,
{
    NodeView {
        name: n.name@,
        attributes: n.attributes@,
        children: Seq::new(
            n.children@.len(),
            |i: int|
                {
                    proof {
                        assert(decreases_to!(n => n.children));
                    }
                    if 0 <= i < n.children@.len() {
                        outline_view(n.children@[i])
                    } else {
                        leaf(Seq::empty(), Map::empty())
                    }
                },
        ),
        content: seq![],
    }
}

impl View for Node {
    type V = NodeView;

    open spec fn view(&self) -> NodeView {
        outline_view(*self)
    }
}

/// The texts of the result of reading one tag.
pub open spec fn element_result(r: Result<Node, String>) -> Result<NodeView, Seq<char>> {
    match r {
        Ok(n) => Ok(n@),
        Err(e) => Err(e@),
    }
}

/// The texts of the result of reading a document.
pub open spec fn document_result(r: Result<(String, Node), String>) -> Result<
    (Seq<char>, NodeView),
    Seq<char>,
> {
    match r {
        Ok((rest, n)) => Ok((rest@, n@)),
        Err(e) => Err(e@),
    }
}

/// The texts of the result of reading a document; `None` stands for an
/// input on which reading does not finish.
pub open spec fn outline_outcome(r: Option<Result<(String, Node), String>>) -> Outcome<
    Result<(Seq<char>, NodeView), Seq<char>>,
> {
    match r {
        None => Outcome::Stuck,
        Some(Ok((rest, n))) => Outcome::Finished(Ok((rest@, n@))),
        Some(Err(e)) => Outcome::Finished(Err(e@)),
    }
}

impl Node {
    /// A node with no name, no attributes and no children.
    fn new() -> (n: Node)
        ensures
            n@ == leaf(Seq::empty(), Map::empty()),
    {
        let n = Node { name: String::new(), attributes: Attributes::new(), children: Vec::new() };
        assert(n@.children =~= Seq::<NodeView>::empty());
        n
    }

    /// The outline of a document node: the same tree without its text.
    fn from_tree(n: parser::Node) -> (r: Node)
        ensures
            r@ == clear_text(n@),
        decreases n,
    {
        let ghost orig = n;
        let parser::Node { name, attributes, children, content: _ } = n;
        let mut kids = children;
        let mut out: Vec<Node> = Vec::new();
        let total = kids.len();
        while kids.len() > 0
            invariant
                orig == n,
                total == orig.children@.len(),
                out@.len() + kids@.len() == total,
                forall|j: int|
                    0 <= j < out@.len() ==> (#[trigger] out@[j])@ == clear_text(
                        orig.children@[j]@,
                    ),
                forall|j: int|
                    0 <= j < kids@.len() ==> #[trigger] kids@[j] == orig.children@[out@.len()
                        + j],
            decreases kids.len(),
        {
            let ghost k = out@.len();
            let c = kids.remove(0);
            proof {
                assert(c == orig.children@[k as int]);
                assert(decreases_to!(orig => orig.children));
                assert(decreases_to!(orig.children => orig.children@));
                assert(decreases_to!(orig.children@ => orig.children@[k as int]));
                assert(decreases_to!(orig => c));
            }
            let converted = Node::from_tree(c);
            out.push(converted);
        }
        let r = Node { name, attributes, children: out };
        proof {
            assert(r@.children =~= clear_text(orig@).children) by {
                assert forall|j: int| 0 <= j < total implies r@.children[j] == clear_text(
                    orig@,
                ).children[j] by {
                    assert(r@.children[j] == out@[j]@);
                    assert(orig@.children[j] == orig.children@[j]@);
                }
            }
        }
        r
    }
}

/// Reads a name from `input` as it stands: one letter, then the longest run
/// of letters, digits and hyphens. Returns what follows the name, and the
/// name.
pub fn match_identifier(input: &str) -> (r: Result<(&str, String), String>)
    ensures
        named_result(r) == parse_identifier(Dialect::Outline, input@),
{
    read_name(Dialect::Outline, input)
}

/// Reads `name="value"` pairs from the trimmed `line` until only `/>` or
/// `>` is left; names are read as `match_identifier` of this module reads
/// them. Returns the closing text and the attributes, a later value for a
/// name replacing an earlier one.
pub fn match_attributes(line: &str) -> (r: Result<(&str, Attributes), String>)
    ensures
        attributes_result(r) == parse_attributes(Dialect::Outline, line@),
{
    read_attributes(Dialect::Outline, line)
}

/// Reads one tag from `line`: `<`, a name, attributes and `/>` or `>`.
/// The node has no children.
pub fn html_to_node(line: &str) -> (r: Result<Node, String>)
    ensures
        element_result(r) == parse_element(Dialect::Outline, line@),
{
    match parser::read_element(Dialect::Outline, line) {
        Ok(n) => {
            proof {
                lemma_clear_text_leaf(n@.name, n@.attributes);
            }
            Ok(Node::from_tree(n))
        },
        Err(e) => Err(e),
    }
}

/// The outline of a document's reading.
fn outline_of(r: Option<Result<(String, parser::Node), String>>) -> (o: Option<
    Result<(String, Node), String>,
>)
    ensures
        outline_outcome(o) == clear_outcome(parser::document_outcome(r)),
{
    match r {
        None => None,
        Some(Err(e)) => Some(Err(e)),
        Some(Ok((rest, n))) => Some(Ok((rest, Node::from_tree(n)))),
    }
}

/// Reads the first element of `html` with everything nested in it, and
/// returns the text after it (its lines joined with line feeds) and the
/// element's outline. Reading stops with the error of the first tag that
/// cannot be read, and stops reading an element's children at a line of
/// text. Defined where the document does not run out of lines inside an
/// element.
pub fn process(html: String) -> (r: Result<(String, Node), String>)
    requires
        process_text(Dialect::Outline, html@) is Finished,
    ensures
        process_text(Dialect::Outline, html@) == Outcome::Finished(document_result(r)),
{
    proof {
        law_clear_outcome_identity(Dialect::Outline, html@);
    }
    match outline_of(parser::read_document(Dialect::Outline, html.as_str())) {
        Some(r) => r,
        None => Err(String::new()),
    }
}

/// `process` on every input: `None` where reading would not finish.
pub fn try_process(html: String) -> (r: Option<Result<(String, Node), String>>)
    ensures
        outline_outcome(r) == process_text(Dialect::Outline, html@),
{
    if parser::reading_finishes(Dialect::Outline, html.as_str()) {
        Some(process(html))
    } else {
        None
    }
}

} // verus!
