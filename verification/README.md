# html_parser

A small, line-oriented HTML reader, verified with Verus.

A document is read one line at a time: a line that ends with `/>` is a
self-closing tag, a line that begins with `</` closes the open element, and
any other line that begins with `<` opens a child element. Tags are read with
small parsing combinators (literals, names, quoted values, attribute lists).

Layout of `src/`:

- `text.rs`: white space, trimming, prefixes and suffixes, splitting into lines
  and joining lines, on `&str` with their meaning over `Seq<char>`.
- `unicode.rs`: the two Unicode character classes that names are made of
  (letters, and letters or digits), taken from the standard library; within
  ASCII they are stated exactly.
- `attributes.rs`: the attribute map of a node (a later value for a name
  replaces an earlier one).
- `model.rs`: what every reader computes, as spec functions over texts.
- `utils.rs`: the combinators `match_literal`, `or`, `match_identifier`,
  `match_string`, `match_attributes`.
- `parser.rs`: the document reader (`process`, `html_to_node`), whose nodes
  carry a text field.
- `outline.rs`: the outline reader, which reads names that begin with a letter
  and stops an element's children at a line of text.
- `properties.rs`: properties proved of every input.

`app/main.rs` is the command-line program: it fetches a page and reads a
sample document.
