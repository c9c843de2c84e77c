//! What the readers compute, stated over texts (`Seq<char>`): the meaning
//! that the executable functions of `utils`, `parser` and `outline` are
//! proved to have.
use vstd::prelude::*;

use crate::text::{
    ends_with, first_index, is_ws, join_lines, lemma_first_index_found, lemma_join_drop_first,
    lemma_join_lines_of_len, lemma_lines_of_nonempty, lemma_trim_len, lemma_trim_start_len, lines_of,
    starts_with, trim, trim_start,
};
use crate::unicode::{alphabetic, alphanumeric};

verus! {

/// The two ways in which this crate reads a document.
#[derive(Clone, Copy, Debug, PartialEq, Eq)]
pub enum Dialect {
    /// Names are read after trimming and may begin with any character that
    /// is not white space; a line of text inside an element is never left
    /// (the reader does not return).
    Document,
    /// Names are read as they stand and must begin with a letter; a line of
    /// text inside an element ends that element's children.
    Outline,
}

/// The error that a failed literal match reports.
pub open spec fn literal_error(expected: Seq<char>) -> Seq<char> {
    "Couldn't match the result for "@ + expected
}

/// Matching `expected` at the front of `input`: what follows it, or the error.
pub open spec fn parse_literal(expected: Seq<char>, input: Seq<char>) -> Result<
    Seq<char>,
    Seq<char>,
> {
    if starts_with(input, expected) {
        Ok(input.skip(expected.len() as int))
    } else {
        Err(literal_error(expected))
    }
}

/// A character that may continue a name.
pub open spec fn is_name_char(c: char) -> bool {
    alphanumeric(c) || c == '-'
}

/// How many characters at the front of `s` may continue a name.
pub open spec fn name_run(s: Seq<char>) -> nat
    decreases s.len(),
{
    if s.len() > 0 && is_name_char(s[0]) {
        1 + name_run(s.drop_first())
    } else {
        0
    }
}

/// The error that a missing name reports.
pub open spec fn invalid_identifier() -> Seq<char> {
    "Invalid identifier"@
}

/// The text in which a dialect looks for a name.
pub open spec fn name_source(d: Dialect, input: Seq<char>) -> Seq<char> {
    match d {
        Dialect::Document => trim(input),
        Dialect::Outline => input,
    }
}

/// Whether a dialect lets a name begin with `c`.
pub open spec fn may_begin_name(d: Dialect, c: char) -> bool {
    match d {
        Dialect::Document => !is_ws(c),
        Dialect::Outline => alphabetic(c),
    }
}

/// Reading a name: one character that may begin a name, then the longest
/// run of letters, digits (in Unicode's sense) and hyphens. The result is
/// what follows the name, and the name.
pub open spec fn parse_identifier(d: Dialect, input: Seq<char>) -> Result<
    (Seq<char>, Seq<char>),
    Seq<char>,
> {
    let s = name_source(d, input);
    if s.len() == 0 || !may_begin_name(d, s[0]) {
        Err(invalid_identifier())
    } else {
        let k: int = 1 + name_run(s.drop_first()) as int;
        Ok((s.skip(k), s.take(k)))
    }
}

/// The error that an unterminated quoted value reports.
pub open spec fn unclosed_value() -> Seq<char> {
    "Not closing attribute value"@
}

/// Reading a quoted value from the trimmed `input`: a double quote, then
/// everything up to the next double quote. The result is what follows the
/// closing quote, and the value between the quotes.
pub open spec fn parse_quoted(input: Seq<char>) -> Result<(Seq<char>, Seq<char>), Seq<char>> {
    match parse_literal(seq!['"'], trim(input)) {
        Err(e) => Err(e),
        Ok(rest) => {
            let i = first_index(rest, '"');
            if i >= rest.len() {
                Err(unclosed_value())
            } else {
                Ok((rest.skip(i + 1 as int), rest.take(i as int)))
            }
        },
    }
}

/// One `name="value"` pair at the front of `line`: the text after it, with
/// its leading white space removed, the name and the value.
pub open spec fn parse_pair(d: Dialect, line: Seq<char>) -> Result<
    (Seq<char>, Seq<char>, Seq<char>),
    Seq<char>,
> {
    match parse_identifier(d, line) {
        Err(e) => Err(e),
        Ok((r1, key)) => match parse_literal(seq!['='], r1) {
            Err(e) => Err(e),
            Ok(r2) => match parse_quoted(r2) {
                Err(e) => Err(e),
                Ok((r3, value)) => Ok((trim_start(r3), key, value)),
            },
        },
    }
}

/// A tag's closing text: `/>` or `>`.
pub open spec fn is_tag_end(line: Seq<char>) -> bool {
    line == seq!['/', '>'] || line == seq!['>']
}

/// Reading pairs from `line` (already trimmed) until only a tag's closing
/// text is left; each pair is inserted into `acc`.
pub open spec fn parse_pairs(
    d: Dialect,
    line: Seq<char>,
    acc: Map<Seq<char>, Seq<char>>,
) -> Result<(Seq<char>, Map<Seq<char>, Seq<char>>), Seq<char>>
    decreases line.len(),
{
    if is_tag_end(line) {
        Ok((line, acc))
    } else {
        match parse_pair(d, line) {
            Err(e) => Err(e),
            Ok((rest, key, value)) => {
                proof {
                    lemma_parse_pair_shrinks(d, line);
                }
                parse_pairs(d, rest, acc.insert(key, value))
            },
        }
    }
}

/// Reading the attributes of a tag from `line`: the closing text that is
/// left (`/>` or `>`) and the attributes.
pub open spec fn parse_attributes(d: Dialect, line: Seq<char>) -> Result<
    (Seq<char>, Map<Seq<char>, Seq<char>>),
    Seq<char>,
> {
    parse_pairs(d, trim(line), Map::empty())
}

/// `name_run` never passes the end.
pub proof fn lemma_name_run_bound(s: Seq<char>)
    ensures
        name_run(s) <= s.len(),
    decreases s.len(),
{
    if s.len() > 0 && is_name_char(s[0]) {
        lemma_name_run_bound(s.drop_first());
    }
}

/// `name_run` of `s` is `m` when its first `m` characters may continue a
/// name and the next one (if any) may not.
pub proof fn lemma_name_run(s: Seq<char>, m: int)
    requires
        0 <= m <= s.len(),
        forall|j: int| 0 <= j < m ==> is_name_char(#[trigger] s[j]),
        m == s.len() || !is_name_char(s[m]),
    ensures
        name_run(s) == m,
    decreases m,
{
    if m > 0 {
        let t = s.drop_first();
        assert forall|j: int| 0 <= j < m - 1 implies is_name_char(#[trigger] t[j]) by {
            assert(t[j] == s[j + 1]);
        }
        lemma_name_run(t, m - 1);
    }
}

/// A name is at least one character, and what follows it is shorter than
/// the input.
pub proof fn lemma_identifier_shape(d: Dialect, input: Seq<char>)
    ensures
        parse_identifier(d, input) matches Ok((rest, name)) ==> {
            &&& name.len() >= 1
            &&& rest.len() + name.len() <= input.len()
            &&& name + rest == name_source(d, input)
        },
{
    let s = name_source(d, input);
    lemma_trim_len(input);
    if s.len() > 0 {
        lemma_name_run_bound(s.drop_first());
        let k: int = 1 + name_run(s.drop_first()) as int;
        assert(s.take(k) + s.skip(k) =~= s);
    }
}

/// A quoted value and its quotes are taken from the trimmed input.
pub proof fn lemma_quoted_shape(input: Seq<char>)
    ensures
        parse_quoted(input) matches Ok((rest, value)) ==> {
            &&& rest.len() + value.len() + 2 <= input.len()
            &&& trim(input) == seq!['"'] + value + seq!['"'] + rest
            &&& !value.contains('"')
        },
{
    lemma_trim_len(input);
    let t = trim(input);
    if let Ok(rest) = parse_literal(seq!['"'], t) {
        let i = first_index(rest, '"');
        lemma_first_index_found(rest, '"');
        if i < rest.len() {
            assert(t =~= seq!['"'] + rest);
            assert(rest =~= rest.take(i as int) + seq!['"'] + rest.skip(i + 1 as int));
            assert forall|j: int| 0 <= j < i implies rest.take(i as int)[j] != '"' by {
                assert(rest.take(i as int)[j] == rest[j]);
            }
        }
    }
}

/// Reading one pair always consumes part of the line.
pub proof fn lemma_parse_pair_shrinks(d: Dialect, line: Seq<char>)
    ensures
        parse_pair(d, line) matches Ok((rest, _, _)) ==> rest.len() < line.len(),
{
    lemma_identifier_shape(d, line);
    if let Ok((r1, key)) = parse_identifier(d, line) {
        if let Ok(r2) = parse_literal(seq!['='], r1) {
            lemma_quoted_shape(r2);
            if let Ok((r3, value)) = parse_quoted(r2) {
                lemma_trim_start_len(r3);
            }
        }
    }
}

/// A node of a document, as texts: its tag name, its attributes, the nodes
/// nested in it and the text it holds.
pub struct NodeView {
    pub name: Seq<char>,
    pub attributes: Map<Seq<char>, Seq<char>>,
    pub children: Seq<NodeView>,
    pub content: Seq<char>,
}

/// A node with a name and attributes, and nothing inside.
pub open spec fn leaf(name: Seq<char>, attributes: Map<Seq<char>, Seq<char>>) -> NodeView {
    NodeView { name, attributes, children: seq![], content: seq![] }
}

/// Matching the end of a tag: `/>`, or else `>`.
pub open spec fn parse_end(s: Seq<char>) -> Result<Seq<char>, Seq<char>> {
    match parse_literal(seq!['/', '>'], s) {
        Ok(r) => Ok(r),
        Err(_) => parse_literal(seq!['>'], s),
    }
}

/// Reading one tag from `line`: `<`, a name, attributes, then `/>` or `>`
/// with nothing but white space after it.
pub open spec fn parse_element(d: Dialect, line: Seq<char>) -> Result<NodeView, Seq<char>> {
    match parse_literal(seq!['<'], line) {
        Err(e) => Err(e),
        Ok(r1) => match parse_identifier(d, r1) {
            Err(e) => Err(e),
            Ok((r2, name)) => match parse_attributes(d, r2) {
                Err(e) => Err(e),
                Ok((r3, attributes)) => match parse_end(r3) {
                    Err(e) => Err(e),
                    Ok(_) => Ok(leaf(name, attributes)),
                },
            },
        },
    }
}

/// How reading a document ends: with a value, or not at all (the reader
/// would index past its last line, or never stop).
pub enum Outcome<T> {
    Finished(T),
    Stuck,
}

/// Reading a document from `html`: the text after the first element and
/// that element with everything nested in it.
///
/// The trimmed text is split into lines. A first line that ends with `/>`
/// is a whole element. Otherwise the first line opens an element whose
/// children follow, line by line, as `process_lines` reads them.
pub open spec fn process_text(d: Dialect, html: Seq<char>) -> Outcome<
    Result<(Seq<char>, NodeView), Seq<char>>,
>
    decreases html.len(), 0nat, 0nat,
{
    let ls = lines_of(trim(html));
    if ls.len() == 0 {
        Outcome::Stuck
    } else if ends_with(trim(ls[0]), seq!['/', '>']) {
        match parse_element(d, ls[0]) {
            Err(e) => Outcome::Finished(Err(e)),
            Ok(n) => Outcome::Finished(Ok((join_lines(ls.drop_first()), n))),
        }
    } else {
        match parse_element(d, ls[0]) {
            Err(e) => Outcome::Finished(Err(e)),
            Ok(n) => {
                proof {
                    lemma_process_text_step(html);
                }
                with_children(n, process_lines(d, ls.drop_first(), seq![]))
            },
        }
    }
}

/// An element `n` with the children that reading its lines gave, and the
/// text after it.
pub open spec fn with_children(
    n: NodeView,
    o: Outcome<Result<(Seq<Seq<char>>, Seq<NodeView>), Seq<char>>>,
) -> Outcome<Result<(Seq<char>, NodeView), Seq<char>>> {
    match o {
        Outcome::Stuck => Outcome::Stuck,
        Outcome::Finished(Err(e)) => Outcome::Finished(Err(e)),
        Outcome::Finished(Ok((rest, children))) => Outcome::Finished(
            Ok(
                (
                    join_lines(rest),
                    NodeView {
                        name: n.name,
                        attributes: n.attributes,
                        children,
                        content: n.content,
                    },
                ),
            ),
        ),
    }
}

/// Reading the children of an open element from `lines`, after those
/// already read (`children`): the lines left after the element and all its
/// children.
///
/// A line that begins with `</` closes the element. A line that begins with
/// `<` and ends with `/>` is a child without children. Another line that
/// begins with `<` opens a child, which is read from the remaining lines
/// joined again; reading goes on with the lines of what that leaves. Any
/// other line is text: the `Outline` dialect stops before it, the
/// `Document` dialect never gets past it.
pub open spec fn process_lines(
    d: Dialect,
    lines: Seq<Seq<char>>,
    children: Seq<NodeView>,
) -> Outcome<Result<(Seq<Seq<char>>, Seq<NodeView>), Seq<char>>>
    decreases join_lines(lines).len(), 1nat, lines.len(),
{
    if lines.len() == 0 {
        Outcome::Stuck
    } else {
        let next = trim(lines[0]);
        if starts_with(next, seq!['<', '/']) {
            Outcome::Finished(Ok((lines.drop_first(), children)))
        } else if starts_with(next, seq!['<']) {
            if ends_with(next, seq!['/', '>']) {
                match parse_element(d, next) {
                    Err(e) => Outcome::Finished(Err(e)),
                    Ok(n) => {
                        proof {
                            lemma_join_drop_first(lines);
                        }
                        process_lines(d, lines.drop_first(), children.push(n))
                    },
                }
            } else {
                match process_text(d, join_lines(lines)) {
                    Outcome::Stuck => Outcome::Stuck,
                    Outcome::Finished(Err(e)) => Outcome::Finished(Err(e)),
                    Outcome::Finished(Ok((rest, n))) => {
                        let more = lines_of(rest);
                        if join_lines(more).len() < join_lines(lines).len() {
                            process_lines(d, more, children.push(n))
                        } else {
                            Outcome::Stuck
                        }
                    },
                }
            }
        } else {
            match d {
                Dialect::Document => Outcome::Stuck,
                Dialect::Outline => Outcome::Finished(Ok((lines, children))),
            }
        }
    }
}

/// The lines after the first line of a trimmed text are shorter, joined,
/// than the text.
pub proof fn lemma_process_text_step(html: Seq<char>)
    ensures
        lines_of(trim(html)).len() > 0 ==> join_lines(lines_of(trim(html)).drop_first()).len()
            < html.len(),
{
    let t = trim(html);
    let ls = lines_of(t);
    lemma_trim_len(html);
    lemma_join_lines_of_len(t);
    lemma_lines_of_nonempty(t);
    if ls.len() > 0 {
        lemma_join_drop_first(ls);
    }
}

/// A tree with the text of every node removed.
pub open spec fn clear_text(v: NodeView) -> NodeView
    decreases v,
{
    NodeView {
        name: v.name,
        attributes: v.attributes,
        children: Seq::new(
            v.children.len(),
            |i: int|
                {
                    proof {
                        assert(decreases_to!(v => v.children));
                    }
                    if 0 <= i < v.children.len() {
                        clear_text(v.children[i])
                    } else {
                        leaf(Seq::empty(), Map::empty())
                    }
                },
        ),
        content: seq![],
    }
}

/// The outcome of reading a document, with the text removed from its tree.
pub open spec fn clear_outcome(o: Outcome<Result<(Seq<char>, NodeView), Seq<char>>>) -> Outcome<
    Result<(Seq<char>, NodeView), Seq<char>>,
> {
    match o {
        Outcome::Finished(Ok((rest, n))) => Outcome::Finished(Ok((rest, clear_text(n)))),
        Outcome::Finished(Err(e)) => Outcome::Finished(Err(e)),
        Outcome::Stuck => Outcome::Stuck,
    }
}

/// A node without children or text keeps its texts when text is removed.
pub proof fn lemma_clear_text_leaf(name: Seq<char>, attributes: Map<Seq<char>, Seq<char>>)
    ensures
        clear_text(leaf(name, attributes)) == leaf(name, attributes),
{
    assert(clear_text(leaf(name, attributes)).children =~= Seq::<NodeView>::empty());
}

} // verus!
