//! Properties of the readers that hold of every input.
use vstd::prelude::*;

use crate::attributes::map_of;
use crate::unicode::{alphabetic, alphanumeric};
use crate::model::{
    clear_outcome, clear_text, invalid_identifier, is_name_char, is_tag_end, name_run, lemma_identifier_shape, lemma_name_run,
    lemma_parse_pair_shrinks, lemma_process_text_step, lemma_quoted_shape, may_begin_name,
    name_source, parse_attributes, parse_element, parse_identifier, parse_literal, parse_pair,
    parse_pairs, parse_quoted, process_lines, process_text, Dialect, NodeView, Outcome,
};
use crate::text::{
    clean_lines, lemma_join_clean, lemma_lines_of_clean, lemma_lines_of_join, lemma_lines_of_last,
    lemma_trim_join, lemma_trim_keeps_out, lemma_trim_len, lemma_trim_start_keeps_out,
    ends_with, first_index, is_ws, join_lines, lemma_first_index, lemma_first_index_found,
    lemma_join_drop_first,
    lemma_join_lines_of_len, lemma_trim_start_skip, lines_of, starts_with, trim, trim_end,
    trim_start,
};

verus! {

/// What a literal match leaves, preceded by the literal, is the input.
pub proof fn law_literal_splits_input(expected: Seq<char>, input: Seq<char>)
    ensures
        parse_literal(expected, input) matches Ok(rest) ==> expected + rest == input,
{
    if let Ok(rest) = parse_literal(expected, input) {
        assert(expected + rest =~= input);
    }
}

/// A name is never empty, and the name followed by what is left is the text
/// the name was read from (the trimmed input in the `Document` dialect, the
/// input itself in the `Outline` dialect).
pub proof fn law_identifier_splits_input(d: Dialect, input: Seq<char>)
    ensures
        parse_identifier(d, input) matches Ok((rest, name)) ==> {
            &&& name.len() >= 1
            &&& name + rest == name_source(d, input)
        },
{
    lemma_identifier_shape(d, input);
}

/// Reading attributes either fails or leaves exactly `/>` or `>`.
pub proof fn law_attributes_end_at_tag_end(d: Dialect, line: Seq<char>)
    ensures
        parse_attributes(d, line) matches Ok((rest, _)) ==> is_tag_end(rest),
{
    lemma_pairs_end_at_tag_end(d, trim(line), Map::empty());
}

proof fn lemma_pairs_end_at_tag_end(d: Dialect, line: Seq<char>, acc: Map<Seq<char>, Seq<char>>)
    ensures
        parse_pairs(d, line, acc) matches Ok((rest, _)) ==> is_tag_end(rest),
    decreases line.len(),
{
    if !is_tag_end(line) {
        if let Ok((rest, key, value)) = parse_pair(d, line) {
            lemma_parse_pair_shrinks(d, line);
            lemma_pairs_end_at_tag_end(d, rest, acc.insert(key, value));
        }
    }
}

/// A tag that is read begins with `<`, and its node has no children and no
/// text.
pub proof fn law_element_is_leaf(d: Dialect, line: Seq<char>)
    ensures
        parse_element(d, line) matches Ok(n) ==> {
            &&& starts_with(line, seq!['<'])
            &&& n.children.len() == 0
            &&& n.content.len() == 0
        },
{
}

/// What is left after a document's first element is shorter than the
/// input: reading always consumes text.
pub proof fn law_rest_is_shorter(d: Dialect, html: Seq<char>)
    ensures
        process_text(d, html) matches Outcome::Finished(Ok((rest, _))) ==> rest.len()
            < html.len(),
    decreases html.len(), 0nat, 0nat,
{
    let ls = lines_of(trim(html));
    lemma_process_text_step(html);
    if ls.len() > 0 && !ends_with(trim(ls[0]), seq!['/', '>']) {
        if let Ok(n) = parse_element(d, ls[0]) {
            lemma_lines_keep_length(d, ls.drop_first(), seq![]);
        }
    }
}

/// After a nested element is read from the remaining lines, the lines of
/// what it leaves are shorter, joined, than those lines: `process_lines`
/// never ends `Stuck` for want of progress.
pub proof fn law_nested_element_makes_progress(d: Dialect, lines: Seq<Seq<char>>)
    ensures
        process_text(d, join_lines(lines)) matches Outcome::Finished(Ok((rest, _)))
            ==> join_lines(lines_of(rest)).len() < join_lines(lines).len(),
{
    law_rest_is_shorter(d, join_lines(lines));
    if let Outcome::Finished(Ok((rest, _))) = process_text(d, join_lines(lines)) {
        lemma_join_lines_of_len(rest);
    }
}

/// Reading children never leaves more text, joined, than it was given.
proof fn lemma_lines_keep_length(d: Dialect, lines: Seq<Seq<char>>, children: Seq<NodeView>)
    ensures
        process_lines(d, lines, children) matches Outcome::Finished(Ok((left, _))) ==> join_lines(
            left,
        ).len() <= join_lines(lines).len(),
    decreases join_lines(lines).len(), 1nat, lines.len(),
{
    if lines.len() > 0 {
        lemma_join_drop_first(lines);
        let next = trim(lines[0]);
        if starts_with(next, seq!['<', '/']) {
        } else if starts_with(next, seq!['<']) {
            if ends_with(next, seq!['/', '>']) {
                if let Ok(n) = parse_element(d, next) {
                    lemma_lines_keep_length(d, lines.drop_first(), children.push(n));
                }
            } else {
                law_rest_is_shorter(d, join_lines(lines));
                if let Outcome::Finished(Ok((rest, n))) = process_text(d, join_lines(lines)) {
                    lemma_join_lines_of_len(rest);
                    lemma_lines_keep_length(d, lines_of(rest), children.push(n));
                }
            }
        }
    }
}

/// A quoted value is the trimmed line's text between its first two double
/// quotes: the line is a quote, the value, a quote and what is left, and the
/// value holds no double quote.
pub proof fn law_quoted_splits_line(line: Seq<char>)
    ensures
        parse_quoted(line) matches Ok((rest, value)) ==> {
            &&& trim(line) == seq!['"'] + value + seq!['"'] + rest
            &&& !value.contains('"')
        },
{
    lemma_quoted_shape(line);
}

/// Trimming twice is trimming once.
pub proof fn law_trim_idempotent(s: Seq<char>)
    ensures
        trim(trim(s)) == trim(s),
{
    let a = trim_start(s);
    lemma_trim_start_front(s);
    lemma_trim_end_keeps_front(a);
    lemma_trim_start_stays(trim_end(a));
    lemma_trim_end_back(a);
    lemma_trim_end_stays(trim_end(a));
}

proof fn lemma_trim_start_front(s: Seq<char>)
    ensures
        trim_start(s).len() == 0 || !is_ws(trim_start(s)[0]),
    decreases s.len(),
{
    if s.len() > 0 && is_ws(s[0]) {
        lemma_trim_start_front(s.drop_first());
    }
}

proof fn lemma_trim_end_back(s: Seq<char>)
    ensures
        trim_end(s).len() == 0 || !is_ws(trim_end(s).last()),
    decreases s.len(),
{
    if s.len() > 0 && is_ws(s.last()) {
        lemma_trim_end_back(s.drop_last());
    }
}

/// Trimming the end keeps the first character, unless it removes it.
proof fn lemma_trim_end_keeps_front(s: Seq<char>)
    ensures
        trim_end(s).len() == 0 || trim_end(s)[0] == s[0],
    decreases s.len(),
{
    if s.len() > 0 && is_ws(s.last()) {
        lemma_trim_end_keeps_front(s.drop_last());
    }
}

proof fn lemma_trim_start_stays(s: Seq<char>)
    requires
        s.len() == 0 || !is_ws(s[0]),
    ensures
        trim_start(s) == s,
{
}

proof fn lemma_trim_end_stays(s: Seq<char>)
    requires
        s.len() == 0 || !is_ws(s.last()),
    ensures
        trim_end(s) == s,
{
}

/// White space around a document does not change how it is read.
pub proof fn law_surrounding_space_ignored(d: Dialect, html: Seq<char>)
    ensures
        process_text(d, trim(html)) == process_text(d, html),
{
    law_trim_idempotent(html);
}

/// No node of the tree holds text.
pub open spec fn no_text(v: NodeView) -> bool
    decreases v, 1nat,
{
    v.content.len() == 0 && all_no_text(v.children)
}

/// No node of the trees holds text.
pub open spec fn all_no_text(s: Seq<NodeView>) -> bool
    decreases s, 0nat,
{
    if s.len() == 0 {
        true
    } else {
        no_text(s[0]) && all_no_text(s.drop_first())
    }
}

proof fn lemma_all_no_text_push(s: Seq<NodeView>, v: NodeView)
    requires
        all_no_text(s),
        no_text(v),
    ensures
        all_no_text(s.push(v)),
    decreases s.len(),
{
    if s.len() == 0 {
        assert(s.push(v).drop_first() =~= Seq::<NodeView>::empty());
        assert(s.push(v)[0] == v);
        assert(all_no_text(s.push(v).drop_first()));
    } else {
        lemma_all_no_text_push(s.drop_first(), v);
        assert(s.push(v).drop_first() =~= s.drop_first().push(v));
        assert(s.push(v)[0] == s[0]);
    }
}

/// A read document holds no text anywhere in its tree: no reader fills a
/// node's text.
pub proof fn law_tree_has_no_text(d: Dialect, html: Seq<char>)
    ensures
        process_text(d, html) matches Outcome::Finished(Ok((_, n))) ==> no_text(n),
    decreases html.len(), 0nat, 0nat,
{
    let ls = lines_of(trim(html));
    lemma_process_text_step(html);
    if ls.len() > 0 {
        if let Ok(n) = parse_element(d, ls[0]) {
            assert(all_no_text(n.children));
            if !ends_with(trim(ls[0]), seq!['/', '>']) {
                lemma_children_have_no_text(d, ls.drop_first(), seq![]);
            }
        }
    }
}

proof fn lemma_children_have_no_text(
    d: Dialect,
    lines: Seq<Seq<char>>,
    children: Seq<NodeView>,
)
    requires
        all_no_text(children),
    ensures
        process_lines(d, lines, children) matches Outcome::Finished(Ok((_, ch))) ==> all_no_text(
            ch,
        ),
    decreases join_lines(lines).len(), 1nat, lines.len(),
{
    if lines.len() > 0 {
        lemma_join_drop_first(lines);
        let next = trim(lines[0]);
        if starts_with(next, seq!['<', '/']) {
        } else if starts_with(next, seq!['<']) {
            if ends_with(next, seq!['/', '>']) {
                if let Ok(n) = parse_element(d, next) {
                    assert(all_no_text(n.children));
                    lemma_all_no_text_push(children, n);
                    lemma_children_have_no_text(d, lines.drop_first(), children.push(n));
                }
            } else {
                law_tree_has_no_text(d, join_lines(lines));
                law_rest_is_shorter(d, join_lines(lines));
                if let Outcome::Finished(Ok((rest, n))) = process_text(d, join_lines(lines)) {
                    lemma_join_lines_of_len(rest);
                    lemma_all_no_text_push(children, n);
                    lemma_children_have_no_text(d, lines_of(rest), children.push(n));
                }
            }
        }
    }
}

proof fn lemma_all_no_text_index(s: Seq<NodeView>, i: int)
    requires
        all_no_text(s),
        0 <= i < s.len(),
    ensures
        no_text(s[i]),
    decreases s.len(),
{
    if i > 0 {
        lemma_all_no_text_index(s.drop_first(), i - 1);
    }
}

/// Removing the text of a tree that holds none leaves it as it is.
pub proof fn lemma_clear_text_identity(v: NodeView)
    requires
        no_text(v),
    ensures
        clear_text(v) == v,
    decreases v,
{
    assert forall|i: int| 0 <= i < v.children.len() implies clear_text(v).children[i]
        == v.children[i] by {
        lemma_all_no_text_index(v.children, i);
        assert(decreases_to!(v => v.children));
        lemma_clear_text_identity(v.children[i]);
    }
    assert(clear_text(v).children =~= v.children);
    assert(clear_text(v).content =~= v.content);
}

/// Removing the text of a read document changes nothing.
pub proof fn law_clear_outcome_identity(d: Dialect, html: Seq<char>)
    ensures
        clear_outcome(process_text(d, html)) == process_text(d, html),
{
    law_tree_has_no_text(d, html);
    if let Outcome::Finished(Ok((_, n))) = process_text(d, html) {
        lemma_clear_text_identity(n);
    }
}

/// The text that writes `pairs` one after another, each as `name="value"`
/// followed by a space.
pub open spec fn write_pairs(pairs: Seq<(Seq<char>, Seq<char>)>) -> Seq<char>
    decreases pairs.len(),
{
    if pairs.len() == 0 {
        seq![]
    } else {
        pairs[0].0 + seq!['=', '"'] + pairs[0].1 + seq!['"', ' '] + write_pairs(
            pairs.drop_first(),
        )
    }
}

/// A name that dialect `d` reads whole when `=` follows it: it begins with a
/// character that may begin a name, and goes on with letters, digits and
/// hyphens. A name that begins with a letter is plain in both dialects.
pub open spec fn is_plain_name(d: Dialect, k: Seq<char>) -> bool {
    &&& k.len() >= 1
    &&& may_begin_name(d, k[0])
    &&& forall|i: int| 1 <= i < k.len() ==> is_name_char(#[trigger] k[i])
}

/// A name that begins with a letter and goes on with letters, digits and
/// hyphens is plain in every dialect, so `law_attributes_read_back` holds
/// for such names.
pub proof fn law_lettered_names_are_plain(d: Dialect, k: Seq<char>)
    requires
        k.len() >= 1,
        alphabetic(k[0]),
        forall|i: int| 1 <= i < k.len() ==> is_name_char(#[trigger] k[i]),
    ensures
        is_plain_name(d, k),
{
}

/// `acc` with the pairs inserted from first to last.
pub open spec fn insert_all(
    acc: Map<Seq<char>, Seq<char>>,
    pairs: Seq<(Seq<char>, Seq<char>)>,
) -> Map<Seq<char>, Seq<char>>
    decreases pairs.len(),
{
    if pairs.len() == 0 {
        acc
    } else {
        insert_all(acc.insert(pairs[0].0, pairs[0].1), pairs.drop_first())
    }
}

proof fn lemma_insert_all_push(
    acc: Map<Seq<char>, Seq<char>>,
    pairs: Seq<(Seq<char>, Seq<char>)>,
    x: (Seq<char>, Seq<char>),
)
    ensures
        insert_all(acc, pairs.push(x)) == insert_all(acc, pairs).insert(x.0, x.1),
    decreases pairs.len(),
{
    if pairs.len() == 0 {
        assert(pairs.push(x).drop_first() =~= Seq::<(Seq<char>, Seq<char>)>::empty());
        assert(pairs.push(x)[0] == x);
        assert(insert_all(acc.insert(x.0, x.1), Seq::<(Seq<char>, Seq<char>)>::empty())
            == acc.insert(x.0, x.1));
        assert(insert_all(acc, pairs) == acc);
    } else {
        assert(pairs.push(x).drop_first() =~= pairs.drop_first().push(x));
        assert(pairs.push(x)[0] == pairs[0]);
        lemma_insert_all_push(acc.insert(pairs[0].0, pairs[0].1), pairs.drop_first(), x);
    }
}

proof fn lemma_insert_all_map_of(pairs: Seq<(Seq<char>, Seq<char>)>)
    ensures
        insert_all(Map::empty(), pairs) == map_of(pairs),
    decreases pairs.len(),
{
    if pairs.len() > 0 {
        let init = pairs.drop_last();
        lemma_insert_all_map_of(init);
        lemma_insert_all_push(Map::empty(), init, pairs.last());
        assert(init.push(pairs.last()) =~= pairs);
    }
}

/// A written list of pairs followed by a tag end begins with a character
/// that is not white space, ends with `>`, and is its own trim.
proof fn lemma_written_shape(d: Dialect, pairs: Seq<(Seq<char>, Seq<char>)>, t: Seq<char>)
    requires
        is_tag_end(t),
        forall|i: int| 0 <= i < pairs.len() ==> is_plain_name(d, #[trigger] pairs[i].0),
    ensures
        ({
            let x = write_pairs(pairs) + t;
            &&& x.len() > 0
            &&& !is_ws(x[0])
            &&& x.last() == '>'
            &&& trim(x) == x
        }),
{
    let x = write_pairs(pairs) + t;
    if pairs.len() > 0 {
        let k = pairs[0].0;
        assert(is_plain_name(d, k));
        assert(x[0] == k[0]);
    } else {
        assert(x =~= t);
    }
    assert(x.last() == t.last());
    lemma_trim_start_stays(x);
    lemma_trim_end_stays(x);
}

/// A plain name followed by `=` is read whole.
proof fn lemma_name_read(d: Dialect, k: Seq<char>, after: Seq<char>)
    requires
        is_plain_name(d, k),
        after.len() > 0,
        after[0] == '=',
        !is_ws(after.last()),
    ensures
        parse_identifier(d, k + after) == Ok::<(Seq<char>, Seq<char>), Seq<char>>((after, k)),
{
    let line = k + after;
    assert(line[0] == k[0]);
    assert(line.last() == after.last());
    lemma_trim_start_stays(line);
    lemma_trim_end_stays(line);
    assert(name_source(d, line) == line);
    let tail = line.drop_first();
    assert forall|j: int| 0 <= j < k.len() - 1 implies is_name_char(#[trigger] tail[j]) by {
        assert(tail[j] == k[j + 1]);
    }
    assert(tail[k.len() - 1] == after[0]);
    lemma_name_run(tail, k.len() - 1);
    assert(line.take(k.len() as int) =~= k);
    assert(line.skip(k.len() as int) =~= after);
}

/// A quoted value without double quotes inside, followed by a space, is read
/// whole.
proof fn lemma_quoted_read(v: Seq<char>, w: Seq<char>)
    requires
        !v.contains('"'),
        w.len() > 0,
        !is_ws(w.last()),
    ensures
        parse_quoted(seq!['"'] + v + seq!['"', ' '] + w) == Ok::<
            (Seq<char>, Seq<char>),
            Seq<char>,
        >((seq![' '] + w, v)),
{
    let r2 = seq!['"'] + v + seq!['"', ' '] + w;
    assert(r2[0] == '"');
    assert(r2.last() == w.last());
    lemma_trim_start_stays(r2);
    lemma_trim_end_stays(r2);
    let quoted = v + seq!['"', ' '] + w;
    assert(r2.take(1) =~= seq!['"']);
    assert(r2.skip(1) =~= quoted);
    assert forall|j: int| 0 <= j < v.len() implies #[trigger] quoted[j] != '"' by {
        assert(quoted[j] == v[j]);
    }
    assert(quoted[v.len() as int] == '"');
    lemma_first_index(quoted, '"', v.len() as int);
    assert(quoted.take(v.len() as int) =~= v);
    assert(quoted.skip(v.len() + 1 as int) =~= seq![' '] + w);
}

/// One written pair, followed by text that begins with neither white space
/// nor nothing, is read as that pair.
proof fn lemma_pair_read(d: Dialect, k: Seq<char>, v: Seq<char>, w: Seq<char>)
    requires
        is_plain_name(d, k),
        !v.contains('"'),
        w.len() > 0,
        !is_ws(w[0]),
        !is_ws(w.last()),
    ensures
        !is_tag_end(k + (seq!['=', '"'] + v + seq!['"', ' '] + w)),
        parse_pair(d, k + (seq!['=', '"'] + v + seq!['"', ' '] + w)) == Ok::<
            (Seq<char>, Seq<char>, Seq<char>),
            Seq<char>,
        >((w, k, v)),
{
    let after = seq!['=', '"'] + v + seq!['"', ' '] + w;
    let line = k + after;
    assert(line.len() >= 5);
    assert(after.last() == w.last());
    lemma_name_read(d, k, after);
    let r2 = seq!['"'] + v + seq!['"', ' '] + w;
    assert(after.take(1) =~= seq!['=']);
    assert(after.skip(1) =~= r2);
    lemma_quoted_read(v, w);
    let spaced = seq![' '] + w;
    lemma_trim_start_skip(spaced, 1);
    assert(spaced.skip(1) =~= w);
}

/// Reading written pairs inserts them into `acc` one by one.
proof fn lemma_pairs_read_back(
    d: Dialect,
    pairs: Seq<(Seq<char>, Seq<char>)>,
    t: Seq<char>,
    acc: Map<Seq<char>, Seq<char>>,
)
    requires
        is_tag_end(t),
        forall|i: int| 0 <= i < pairs.len() ==> is_plain_name(d, #[trigger] pairs[i].0),
        forall|i: int| 0 <= i < pairs.len() ==> !(#[trigger] pairs[i].1).contains('"'),
    ensures
        parse_pairs(d, write_pairs(pairs) + t, acc) == Ok::<
            (Seq<char>, Map<Seq<char>, Seq<char>>),
            Seq<char>,
        >((t, insert_all(acc, pairs))),
    decreases pairs.len(),
{
    let line = write_pairs(pairs) + t;
    if pairs.len() == 0 {
        assert(line =~= t);
    } else {
        let k = pairs[0].0;
        let v = pairs[0].1;
        let rest_pairs = pairs.drop_first();
        let w = write_pairs(rest_pairs) + t;
        assert(is_plain_name(d, k));
        assert(!v.contains('"'));
        assert forall|i: int| 0 <= i < rest_pairs.len() implies is_plain_name(
            d,
            #[trigger] rest_pairs[i].0,
        ) by {
            assert(rest_pairs[i] == pairs[i + 1]);
        }
        assert forall|i: int| 0 <= i < rest_pairs.len() implies !(
        #[trigger] rest_pairs[i].1).contains('"') by {
            assert(rest_pairs[i] == pairs[i + 1]);
        }
        lemma_written_shape(d, rest_pairs, t);
        assert(line =~= k + (seq!['=', '"'] + v + seq!['"', ' '] + w));
        lemma_pair_read(d, k, v, w);
        lemma_pairs_read_back(d, rest_pairs, t, acc.insert(k, v));
    }
}

/// Attributes written as `name="value"` pairs, each followed by a space,
/// then `/>` or `>`, read back as the map that inserting the pairs in order
/// gives (a later value for a name replacing an earlier one), with the tag
/// end left. The names must be ones the dialect reads whole, and no value
/// may hold a double quote.
pub proof fn law_attributes_read_back(
    d: Dialect,
    pairs: Seq<(Seq<char>, Seq<char>)>,
    t: Seq<char>,
)
    requires
        is_tag_end(t),
        forall|i: int| 0 <= i < pairs.len() ==> is_plain_name(d, #[trigger] pairs[i].0),
        forall|i: int| 0 <= i < pairs.len() ==> !(#[trigger] pairs[i].1).contains('"'),
    ensures
        parse_attributes(d, write_pairs(pairs) + t) == Ok::<
            (Seq<char>, Map<Seq<char>, Seq<char>>),
            Seq<char>,
        >((t, map_of(pairs))),
{
    lemma_written_shape(d, pairs, t);
    lemma_pairs_read_back(d, pairs, t, Map::empty());
    lemma_insert_all_map_of(pairs);
}

/// Neither end of `x` is white space.
pub open spec fn is_trimmed(x: Seq<char>) -> bool {
    x.len() == 0 || (!is_ws(x[0]) && !is_ws(x.last()))
}

proof fn lemma_trimmed_stays(x: Seq<char>)
    requires
        is_trimmed(x),
    ensures
        trim(x) == x,
{
    lemma_trim_start_stays(x);
    lemma_trim_end_stays(x);
}

proof fn lemma_skip_suffix(x: Seq<char>, k: int)
    requires
        0 <= k <= x.len(),
    ensures
        ends_with(x, x.skip(k)),
{
    assert(x.skip(x.len() - x.skip(k).len()) =~= x.skip(k));
}

proof fn lemma_suffix_trans(x: Seq<char>, y: Seq<char>, z: Seq<char>)
    requires
        ends_with(x, y),
        ends_with(y, z),
    ensures
        ends_with(x, z),
{
    assert(x.skip(x.len() - z.len()) =~= y.skip(y.len() - z.len()));
}

proof fn lemma_suffix_last(x: Seq<char>, y: Seq<char>)
    requires
        ends_with(x, y),
        y.len() > 0,
    ensures
        y.last() == x.last(),
{
    assert(y.last() == x.skip(x.len() - y.len())[y.len() - 1]);
}

proof fn lemma_trim_start_suffix(x: Seq<char>)
    ensures
        ends_with(x, trim_start(x)),
    decreases x.len(),
{
    if x.len() > 0 && is_ws(x[0]) {
        lemma_trim_start_suffix(x.drop_first());
        lemma_skip_suffix(x, 1);
        assert(x.skip(1) =~= x.drop_first());
        lemma_suffix_trans(x, x.drop_first(), trim_start(x.drop_first()));
    } else {
        lemma_skip_suffix(x, 0);
        assert(x.skip(0) =~= x);
    }
}

/// One pair read from a trimmed line leaves a trimmed end of that line.
proof fn lemma_pair_leaves_suffix(d: Dialect, x: Seq<char>)
    requires
        is_trimmed(x),
    ensures
        parse_pair(d, x) matches Ok((rest, _, _)) ==> ends_with(x, rest) && is_trimmed(rest),
{
    if let Ok((rest, _, _)) = parse_pair(d, x) {
        lemma_trimmed_stays(x);
        assert(name_source(d, x) == x);
        lemma_identifier_shape(d, x);
        if let Ok((r1, name)) = parse_identifier(d, x) {
            assert(r1 =~= x.skip(name.len() as int));
            lemma_skip_suffix(x, name.len() as int);
            if let Ok(r2) = parse_literal(seq!['='], r1) {
                lemma_skip_suffix(r1, 1);
                lemma_suffix_trans(x, r1, r2);
                let s2 = trim_start(r2);
                lemma_trim_start_suffix(r2);
                lemma_suffix_trans(x, r2, s2);
                if s2.len() > 0 {
                    lemma_suffix_last(x, s2);
                }
                lemma_trim_end_stays(s2);
                assert(trim(r2) == s2);
                if let Ok(q) = parse_literal(seq!['"'], s2) {
                    lemma_skip_suffix(s2, 1);
                    lemma_suffix_trans(x, s2, q);
                    lemma_first_index_found(q, '"');
                    let i: int = first_index(q, '"') as int;
                    let r3 = q.skip(i + 1);
                    lemma_skip_suffix(q, i + 1);
                    lemma_suffix_trans(x, q, r3);
                    lemma_trim_start_suffix(r3);
                    lemma_suffix_trans(x, r3, rest);
                    lemma_trim_start_front(r3);
                    if rest.len() > 0 {
                        lemma_suffix_last(x, rest);
                    }
                }
            }
        }
    }
}

proof fn lemma_pairs_leave_suffix(d: Dialect, x: Seq<char>, acc: Map<Seq<char>, Seq<char>>)
    requires
        is_trimmed(x),
    ensures
        parse_pairs(d, x, acc) matches Ok((rest, _)) ==> ends_with(x, rest),
    decreases x.len(),
{
    if is_tag_end(x) {
        lemma_skip_suffix(x, 0);
        assert(x.skip(0) =~= x);
    } else if let Ok((rest, key, value)) = parse_pair(d, x) {
        lemma_parse_pair_shrinks(d, x);
        lemma_pair_leaves_suffix(d, x);
        lemma_pairs_leave_suffix(d, rest, acc.insert(key, value));
        if let Ok((left, _)) = parse_pairs(d, rest, acc.insert(key, value)) {
            lemma_suffix_trans(x, rest, left);
        }
    }
}

/// What reading attributes leaves is the end of the trimmed line.
pub proof fn law_attributes_leave_line_end(d: Dialect, line: Seq<char>)
    ensures
        parse_attributes(d, line) matches Ok((rest, _)) ==> ends_with(trim(line), rest),
{
    let a = trim_start(line);
    lemma_trim_start_front(a);
    lemma_trim_start_front(line);
    lemma_trim_end_keeps_front(a);
    lemma_trim_end_back(a);
    lemma_pairs_leave_suffix(d, trim(line), Map::empty());
}

/// The lines are clean and the last one ends with something other than
/// white space.
pub open spec fn well_ended(ls: Seq<Seq<char>>) -> bool {
    &&& clean_lines(ls)
    &&& ls.len() > 0
    &&& ls.last().len() > 0
    &&& !is_ws(ls.last().last())
}

/// In a document without carriage returns, the text `process` leaves is a
/// proper tail of the lines of the trimmed input, joined with line feeds:
/// the first element's lines are taken off and nothing else changes.
pub proof fn law_rest_is_tail_of_lines(d: Dialect, html: Seq<char>)
    requires
        !html.contains('\r'),
    ensures
        process_text(d, html) matches Outcome::Finished(Ok((rest, _))) ==> exists|k: int|
            1 <= k <= lines_of(trim(html)).len() && rest == join_lines(
                #[trigger] lines_of(trim(html)).skip(k),
            ),
    decreases html.len(), 0nat, 0nat,
{
    let t = trim(html);
    let ls = lines_of(t);
    lemma_process_text_step(html);
    if ls.len() > 0 {
        assert(ls.drop_first() =~= ls.skip(1));
        if ends_with(trim(ls[0]), seq!['/', '>']) {
            if let Outcome::Finished(Ok((rest, _))) = process_text(d, html) {
                assert(rest == join_lines(ls.skip(1)));
            }
        } else if let Ok(n) = parse_element(d, ls[0]) {
            lemma_trim_keeps_out(html, '\r');
            lemma_lines_of_clean(t);
            let a = trim_start(html);
            lemma_trim_end_back(a);
            assert(t.len() > 0);
            lemma_lines_of_last(t);
            lemma_lines_tail(d, ls, 1, seq![]);
            if let Outcome::Finished(Ok((rest, _))) = process_text(d, html) {
                if let Outcome::Finished(Ok((left, _))) = process_lines(d, ls.skip(1), seq![]) {
                    let k = choose|k: int| 1 <= k <= ls.len() && left == ls.skip(k);
                    assert(rest == join_lines(ls.skip(k)));
                }
            }
        }
    }
}

/// Reading children from a tail of well-ended lines leaves a tail of them.
proof fn lemma_lines_tail(d: Dialect, ls: Seq<Seq<char>>, j: int, children: Seq<NodeView>)
    requires
        well_ended(ls),
        0 <= j <= ls.len(),
    ensures
        process_lines(d, ls.skip(j), children) matches Outcome::Finished(Ok((left, _)))
            ==> exists|k: int| j <= k <= ls.len() && left == ls.skip(k),
    decreases join_lines(ls.skip(j)).len(), 1nat, ls.len() - j,
{
    let lines = ls.skip(j);
    if lines.len() > 0 {
        lemma_join_drop_first(lines);
        assert(lines.drop_first() =~= ls.skip(j + 1));
        let next = trim(lines[0]);
        if starts_with(next, seq!['<', '/']) {
            if let Outcome::Finished(Ok((left, _))) = process_lines(d, lines, children) {
                assert(left == ls.skip(j + 1));
            }
        } else if starts_with(next, seq!['<']) {
            if ends_with(next, seq!['/', '>']) {
                if let Ok(n) = parse_element(d, next) {
                    lemma_lines_tail(d, ls, j + 1, children.push(n));
                }
            } else {
                let joined = join_lines(lines);
                assert forall|i: int| 0 <= i < lines.len() implies !(
                #[trigger] lines[i]).contains('\n') && !lines[i].contains('\r') by {
                    assert(lines[i] == ls[i + j]);
                }
                lemma_join_clean(lines);
                law_rest_is_tail_of_lines(d, joined);
                law_nested_element_makes_progress(d, lines);
                if let Outcome::Finished(Ok((rest, n))) = process_text(d, joined) {
                    // the lines of the nested element's input
                    lemma_trim_len(lines[0]);
                    assert(next.len() > 0);
                    lemma_trim_start_nonempty(lines[0]);
                    assert(lines.last() == ls.last());
                    lemma_trim_join(lines);
                    let l2 = lines.update(0, trim_start(lines[0]));
                    lemma_trim_start_keeps_out(lines[0], '\n');
                    lemma_trim_start_keeps_out(lines[0], '\r');
                    assert forall|i: int| 0 <= i < l2.len() implies !(
                    #[trigger] l2[i]).contains('\n') && !l2[i].contains('\r') by {
                        if i > 0 {
                            assert(l2[i] == lines[i]);
                        }
                    }
                    if l2.len() > 1 {
                        assert(l2.last() == lines.last());
                    }
                    lemma_lines_of_join(l2);
                    assert(lines_of(trim(joined)) == l2);
                    let k2 = choose|k: int| 1 <= k <= l2.len() && rest == join_lines(
                        #[trigger] l2.skip(k),
                    );
                    assert(l2.skip(k2) =~= ls.skip(j + k2));
                    // the lines of what it leaves
                    let more = ls.skip(j + k2);
                    assert forall|i: int| 0 <= i < more.len() implies !(
                    #[trigger] more[i]).contains('\n') && !more[i].contains('\r') by {
                        assert(more[i] == ls[i + j + k2]);
                    }
                    if more.len() > 0 {
                        assert(more.last() == ls.last());
                    }
                    lemma_lines_of_join(more);
                    assert(lines_of(rest) == more);
                    lemma_lines_tail(d, ls, j + k2, children.push(n));
                }
            }
        }
    }
}

proof fn lemma_trim_start_nonempty(x: Seq<char>)
    requires
        trim(x).len() > 0,
    ensures
        trim_start(x).len() > 0,
{
    if trim_start(x).len() == 0 {
        assert(trim_end(trim_start(x)) == trim_start(x));
    }
}

/// A letter, a digit (in Unicode's sense) or a hyphen.
pub open spec fn continues_name(c: char) -> bool {
    alphanumeric(c) || c == '-'
}

proof fn lemma_name_run_found(t: Seq<char>)
    ensures
        name_run(t) <= t.len(),
        forall|j: int| 0 <= j < name_run(t) ==> continues_name(#[trigger] t[j]),
        name_run(t) < t.len() ==> !continues_name(t[name_run(t) as int]),
    decreases t.len(),
{
    if t.len() > 0 && is_name_char(t[0]) {
        let u = t.drop_first();
        lemma_name_run_found(u);
        assert forall|j: int| 0 <= j < name_run(t) implies continues_name(#[trigger] t[j]) by {
            if j > 0 {
                assert(t[j] == u[j - 1]);
            }
        }
        if name_run(t) < t.len() {
            assert(t[name_run(t) as int] == u[name_run(u) as int]);
        }
    }
}

/// A name is the longest run that a name can be: where the text it is read
/// from begins with a character that may begin a name, the name is that
/// character followed by every letter, digit and hyphen after it, up to the
/// first character that is none of these; otherwise there is no name.
pub proof fn law_identifier_takes_longest_name(d: Dialect, input: Seq<char>)
    ensures
        ({
            let s = name_source(d, input);
            (s.len() == 0 || !may_begin_name(d, s[0])) ==> parse_identifier(d, input) == Err::<
                (Seq<char>, Seq<char>),
                Seq<char>,
            >(invalid_identifier())
        }),
        ({
            let s = name_source(d, input);
            s.len() > 0 && may_begin_name(d, s[0]) ==> (parse_identifier(d, input) matches Ok(
                (rest, name),
            ) && {
                &&& name + rest == s
                &&& name.len() >= 1
                &&& forall|i: int| 1 <= i < name.len() ==> continues_name(#[trigger] name[i])
                &&& rest.len() == 0 || !continues_name(rest[0])
            })
        }),
{
    let s = name_source(d, input);
    if s.len() > 0 && may_begin_name(d, s[0]) {
        let t = s.drop_first();
        lemma_name_run_found(t);
        let k: int = 1 + name_run(t) as int;
        let name = s.take(k);
        let rest = s.skip(k);
        assert(name + rest =~= s);
        assert forall|i: int| 1 <= i < name.len() implies continues_name(#[trigger] name[i]) by {
            assert(name[i] == t[i - 1]);
        }
        if rest.len() > 0 {
            assert(rest[0] == t[name_run(t) as int]);
        }
    }
}

/// A quoted value is read whenever the trimmed line is a double quote, a
/// text without double quotes, and a double quote, whatever follows.
pub proof fn law_quoted_reads_between_quotes(line: Seq<char>, v: Seq<char>, rest: Seq<char>)
    requires
        trim(line) == seq!['"'] + v + seq!['"'] + rest,
        !v.contains('"'),
    ensures
        parse_quoted(line) == Ok::<(Seq<char>, Seq<char>), Seq<char>>((rest, v)),
{
    let t = trim(line);
    let q = v + seq!['"'] + rest;
    assert(t.take(1) =~= seq!['"']);
    assert(t.skip(1) =~= q);
    assert forall|j: int| 0 <= j < v.len() implies #[trigger] q[j] != '"' by {
        assert(q[j] == v[j]);
    }
    assert(q[v.len() as int] == '"');
    lemma_first_index(q, '"', v.len() as int);
    assert(q.take(v.len() as int) =~= v);
    assert(q.skip(v.len() + 1 as int) =~= rest);
}

/// One `name="value"` pair: the text the name is read from is the name,
/// `=`, and a text whose trim is the value between double quotes; the value
/// holds no double quote, and what is left is what follows the closing
/// quote without its leading white space.
pub proof fn law_pair_value_is_quoted_text(d: Dialect, line: Seq<char>)
    ensures
        parse_pair(d, line) matches Ok((rest, key, value)) ==> exists|after: Seq<char>, r3: Seq<char>|
            {
                &&& name_source(d, line) == key + seq!['='] + after
                &&& #[trigger] trim(after) == seq!['"'] + value + seq!['"'] + r3
                &&& !value.contains('"')
                &&& rest == #[trigger] trim_start(r3)
            },
{
    if let Ok((rest, key, value)) = parse_pair(d, line) {
        lemma_identifier_shape(d, line);
        if let Ok((r1, name)) = parse_identifier(d, line) {
            if let Ok(r2) = parse_literal(seq!['='], r1) {
                assert(r1 =~= seq!['='] + r2);
                assert(name_source(d, line) =~= key + seq!['='] + r2);
                lemma_quoted_shape(r2);
                if let Ok((r3, v)) = parse_quoted(r2) {
                    assert(trim(r2) == seq!['"'] + value + seq!['"'] + r3);
                    assert(rest == trim_start(r3));
                }
            }
        }
    }
}

/// A tag is read as the name after `<` and the attributes that follow it,
/// whichever tag end (`/>` or `>`) closes it.
pub proof fn law_element_reads_name_and_attributes(d: Dialect, line: Seq<char>)
    ensures
        parse_literal(seq!['<'], line) matches Ok(r1) ==> (parse_identifier(d, r1) matches Ok(
            (r2, name),
        ) ==> (parse_attributes(d, r2) matches Ok((_, attributes)) ==> parse_element(d, line)
            == Ok::<NodeView, Seq<char>>(
            NodeView { name, attributes, children: seq![], content: seq![] },
        ))),
{
    if let Ok(r1) = parse_literal(seq!['<'], line) {
        if let Ok((r2, name)) = parse_identifier(d, r1) {
            law_attributes_end_at_tag_end(d, r2);
            if let Ok((r3, attributes)) = parse_attributes(d, r2) {
                if r3 == seq!['/', '>'] {
                    assert(r3.take(2) =~= seq!['/', '>']);
                } else {
                    assert(r3.take(1) =~= seq!['>']);
                }
            }
        }
    }
}

/// Reading more children keeps those read before in front, in their order:
/// a child read earlier stands at a lower index than one read later.
pub proof fn law_children_keep_order(d: Dialect, lines: Seq<Seq<char>>, children: Seq<NodeView>)
    ensures
        process_lines(d, lines, children) matches Outcome::Finished(Ok((_, ch))) ==> {
            &&& children.len() <= ch.len()
            &&& ch.take(children.len() as int) == children
        },
    decreases join_lines(lines).len(), lines.len(),
{
    if lines.len() > 0 {
        lemma_join_drop_first(lines);
        let next = trim(lines[0]);
        if starts_with(next, seq!['<', '/']) {
            assert(children.take(children.len() as int) =~= children);
        } else if starts_with(next, seq!['<']) {
            if ends_with(next, seq!['/', '>']) {
                if let Ok(n) = parse_element(d, next) {
                    law_children_keep_order(d, lines.drop_first(), children.push(n));
                    if let Outcome::Finished(Ok((_, ch))) = process_lines(
                        d,
                        lines.drop_first(),
                        children.push(n),
                    ) {
                        assert(ch.take(children.len() as int) =~= ch.take(
                            children.push(n).len() as int,
                        ).take(children.len() as int));
                        assert(children.push(n).take(children.len() as int) =~= children);
                    }
                }
            } else if let Outcome::Finished(Ok((rest, n))) = process_text(d, join_lines(lines)) {
                let more = lines_of(rest);
                if join_lines(more).len() < join_lines(lines).len() {
                    law_children_keep_order(d, more, children.push(n));
                    if let Outcome::Finished(Ok((_, ch))) = process_lines(
                        d,
                        more,
                        children.push(n),
                    ) {
                        assert(ch.take(children.len() as int) =~= ch.take(
                            children.push(n).len() as int,
                        ).take(children.len() as int));
                        assert(children.push(n).take(children.len() as int) =~= children);
                    }
                }
            } else {
            }
        } else {
            assert(children.take(children.len() as int) =~= children);
        }
    }
}

/// When an element's opening line is followed by a self-closing tag, that
/// tag is the element's first child: children stand in document order from
/// the first one on.
pub proof fn law_first_child_is_next_line(d: Dialect, html: Seq<char>)
    ensures
        ({
            let ls = lines_of(trim(html));
            ls.len() > 1 && !ends_with(trim(ls[0]), seq!['/', '>']) && starts_with(
                trim(ls[1]),
                seq!['<'],
            ) && !starts_with(trim(ls[1]), seq!['<', '/']) && ends_with(
                trim(ls[1]),
                seq!['/', '>'],
            ) ==> (process_text(d, html) matches Outcome::Finished(Ok((_, n))) ==> (parse_element(
                d,
                trim(ls[1]),
            ) matches Ok(c) && n.children.len() >= 1 && n.children[0] == c))
        }),
{
    let ls = lines_of(trim(html));
    lemma_process_text_step(html);
    if ls.len() > 1 && !ends_with(trim(ls[0]), seq!['/', '>']) {
        let lines = ls.drop_first();
        assert(lines[0] == ls[1]);
        if let Ok(c) = parse_element(d, trim(ls[1])) {
            lemma_join_drop_first(lines);
            law_children_keep_order(d, lines.drop_first(), seq![c]);
            assert(seq![] + seq![c] =~= seq![c]);
            assert(Seq::<NodeView>::empty().push(c) =~= seq![c]);
            if let Outcome::Finished(Ok((_, ch))) = process_lines(d, lines.drop_first(), seq![c]) {
                assert(ch.take(1)[0] == ch[0]);
            }
        }
    }
}

} // verus!
