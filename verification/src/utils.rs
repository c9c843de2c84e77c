//! Parsing combinators for one line of a document: literals, names, quoted
//! values and lists of attributes. Each returns what is left of its input
//! with what it read, or the reason it failed.
use vstd::prelude::*;

use crate::attributes::Attributes;
use crate::model::{
    is_name_char, lemma_name_run, lemma_parse_pair_shrinks, name_source, parse_attributes,
    parse_identifier, parse_literal, parse_pair, parse_pairs, parse_quoted, Dialect,
};
use crate::text::{
    char_vec, find_char, is_whitespace, lemma_first_index_found, str_eq, str_starts_with,
    trim_start_str, trim_str,
};
use crate::unicode::{is_alphabetic, is_alphanumeric};

verus! {

/// The texts of a parser's result.
pub open spec fn text_result(r: Result<&str, String>) -> Result<Seq<char>, Seq<char>> {
    match r {
        Ok(s) => Ok(s@),
        Err(e) => Err(e@),
    }
}

/// The texts of a result that carries the rest of the input and a string read from it.
pub open spec fn named_result(r: Result<(&str, String), String>) -> Result<
    (Seq<char>, Seq<char>),
    Seq<char>,
> {
    match r {
        Ok((rest, s)) => Ok((rest@, s@)),
        Err(e) => Err(e@),
    }
}

/// The texts of a result that carries the rest of the input and attributes.
pub open spec fn attributes_result(r: Result<(&str, Attributes), String>) -> Result<
    (Seq<char>, Map<Seq<char>, Seq<char>>),
    Seq<char>,
> {
    match r {
        Ok((rest, a)) => Ok((rest@, a@)),
        Err(e) => Err(e@),
    }
}

/// Matches `expected` at the front of `input`.
pub(crate) fn literal<'a>(expected: &str, input: &'a str) -> (r: Result<&'a str, String>)
    ensures
        text_result(r) == parse_literal(expected@, input@),
{
    if str_starts_with(input, expected) {
        let n = expected.unicode_len();
        let m = input.unicode_len();
        Ok(input.substring_char(n, m))
    } else {
        let mut e = "Couldn't match the result for ".to_owned();
        e.append(expected);
        Err(e)
    }
}

/// A parser that matches `expected` at the front of its input and returns
/// what follows it.
pub fn match_literal<'a>(expected: &'a str) -> (f: impl Fn(&'a str) -> Result<&'a str, String>)
    ensures
        forall|input: &'a str| #[trigger] call_requires(f, (input,)),
        forall|input: &'a str, r: Result<&'a str, String>|
            #[trigger] call_ensures(f, (input,), r) ==> text_result(r) == parse_literal(
                expected@,
                input@,
            ),
{
    move |input: &'a str| -> (r: Result<&'a str, String>)
        ensures
            text_result(r) == parse_literal(expected@, input@),
        { literal(expected, input) }
}

/// A parser that tries `parser1` and, where it fails, `parser2` on the same input.
pub fn or<'a, T, A>(parser1: T, parser2: T) -> (f: impl FnOnce(&'a str) -> Result<A, String>) where
    T: Fn(&'a str) -> Result<A, String>,

    ensures
        forall|input: &'a str|
            call_requires(parser1, (input,)) && call_requires(parser2, (input,))
                ==> #[trigger] call_requires(f, (input,)),
        forall|input: &'a str, r: Result<A, String>|
            #[trigger] call_ensures(f, (input,), r) ==> {
                ||| (call_ensures(parser1, (input,), r) && r is Ok)
                ||| exists|r1: Result<A, String>|
                    call_ensures(parser1, (input,), r1) && r1 is Err && call_ensures(
                        parser2,
                        (input,),
                        r,
                    )
            },
{
    move |input: &'a str| -> (r: Result<A, String>)
        requires
            call_requires(parser1, (input,)),
            call_requires(parser2, (input,)),
        ensures
            (call_ensures(parser1, (input,), r) && r is Ok) || exists|r1: Result<A, String>|
                call_ensures(parser1, (input,), r1) && r1 is Err && call_ensures(
                    parser2,
                    (input,),
                    r,
                ),
        {
            match parser1(input) {
                Ok(v) => Ok(v),
                Err(_) => parser2(input),
            }
        }
}

/// Reads a name in the way of dialect `d`.
pub(crate) fn read_name<'a>(d: Dialect, input: &'a str) -> (r: Result<(&'a str, String), String>)
    ensures
        named_result(r) == parse_identifier(d, input@),
{
    let s = match d {
        Dialect::Document => trim_str(input),
        Dialect::Outline => input,
    };
    assert(s@ == name_source(d, input@));
    let v = char_vec(s);
    if v.len() == 0 {
        return Err("Invalid identifier".to_owned());
    }
    let first_ok = match d {
        Dialect::Document => !is_whitespace(v[0]),
        Dialect::Outline => is_alphabetic(v[0]),
    };
    if !first_ok {
        return Err("Invalid identifier".to_owned());
    }
    let mut k: usize = 1;
    while k < v.len() && (is_alphanumeric(v[k]) || v[k] == '-')
        invariant
            1 <= k <= v.len(),
            v@ == s@,
            forall|j: int| 1 <= j < k ==> is_name_char(#[trigger] v@[j]),
        decreases v.len() - k,
    {
        k = k + 1;
    }
    proof {
        let t = s@.drop_first();
        assert forall|j: int| 0 <= j < k - 1 implies is_name_char(#[trigger] t[j]) by {
            assert(t[j] == v@[j + 1]);
        }
        if k < v.len() {
            assert(t[k - 1] == v@[k as int]);
        }
        lemma_name_run(t, k - 1);
        assert(s@.subrange(0, k as int) =~= s@.take(k as int));
        assert(s@.subrange(k as int, v.len() as int) =~= s@.skip(k as int));
    }
    let name = s.substring_char(0, k).to_owned();
    Ok((s.substring_char(k, v.len()), name))
}

/// Reads a name from the trimmed `input`: one character that is not white
/// space, then the longest run of letters, digits and hyphens. Returns what
/// follows the name, and the name.
pub fn match_identifier(input: &str) -> (r: Result<(&str, String), String>)
    ensures
        named_result(r) == parse_identifier(Dialect::Document, input@),
{
    read_name(Dialect::Document, input)
}

/// Reads a double-quoted value from the trimmed `line`. Returns what follows
/// the closing quote, and the text between the quotes.
pub fn match_string(line: &str) -> (r: Result<(&str, String), String>)
    ensures
        named_result(r) == parse_quoted(line@),
{
    let line = trim_str(line);
    match literal("\"", line) {
        Err(e) => {
            proof {
                reveal_strlit("\"");
                assert("\""@ =~= seq!['"']);
            }
            Err(e)
        },
        Ok(rest) => {
            proof {
                reveal_strlit("\"");
                assert("\""@ =~= seq!['"']);
            }
            let v = char_vec(rest);
            let i = find_char(&v, '"');
            if i == v.len() {
                Err("Not closing attribute value".to_owned())
            } else {
                proof {
                    lemma_first_index_found(rest@, '"');
                    assert(rest@.subrange(0, i as int) =~= rest@.take(i as int));
                    assert(rest@.subrange(i + 1, v.len() as int) =~= rest@.skip(i + 1));
                }
                let value = rest.substring_char(0, i).to_owned();
                Ok((rest.substring_char(i + 1, v.len()), value))
            }
        },
    }
}

/// Reads `name="value"` pairs, in the way of dialect `d`, from the trimmed
/// `line` until only `/>` or `>` is left.
pub(crate) fn read_attributes<'a>(d: Dialect, input: &'a str) -> (r: Result<
    (&'a str, Attributes),
    String,
>)
    ensures
        attributes_result(r) == parse_attributes(d, input@),
{
    let mut line = trim_str(input);
    let mut attributes = Attributes::new();
    loop
        invariant
            parse_pairs(d, line@, attributes@) == parse_attributes(d, input@),
        decreases line@.len(),
    {
        let at_end = str_eq(line, "/>") || str_eq(line, ">");
        proof {
            reveal_strlit("/>");
            reveal_strlit(">");
            assert("/>"@ =~= seq!['/', '>']);
            assert(">"@ =~= seq!['>']);
        }
        if at_end {
            return Ok((line, attributes));
        }
        let (rest, key) = match read_name(d, line) {
            Ok(x) => x,
            Err(e) => {
                return Err(e);
            },
        };
        let rest = match literal("=", rest) {
            Ok(x) => x,
            Err(e) => {
                proof {
                    reveal_strlit("=");
                    assert("="@ =~= seq!['=']);
                }
                return Err(e);
            },
        };
        proof {
            reveal_strlit("=");
            assert("="@ =~= seq!['=']);
        }
        let (rest, value) = match match_string(rest) {
            Ok(x) => x,
            Err(e) => {
                return Err(e);
            },
        };
        let next = trim_start_str(rest);
        proof {
            lemma_parse_pair_shrinks(d, line@);
            assert(parse_pair(d, line@) == Ok::<(Seq<char>, Seq<char>, Seq<char>), Seq<char>>(
                (next@, key@, value@),
            ));
        }
        attributes.insert(key, value);
        line = next;
    }
}

/// Reads `name="value"` pairs from the trimmed `line` until only `/>` or
/// `>` is left; names are read as `match_identifier` reads them. Returns the
/// closing text and the attributes, a later value for a name replacing an
/// earlier one.
pub fn match_attributes(line: &str) -> (r: Result<(&str, Attributes), String>)
    ensures
        attributes_result(r) == parse_attributes(Dialect::Document, line@),
{
    read_attributes(Dialect::Document, line)
}

} // verus!
