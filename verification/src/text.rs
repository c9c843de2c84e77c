//! Character-level text operations: whitespace, trimming, prefixes and
//! the splitting of a text into lines.
use vstd::prelude::*;

verus! {

/// Whether `c` has the Unicode `White_Space` property: the characters
/// U+0009..U+000D, U+0020, U+0085, U+00A0, U+1680, U+2000..U+200A,
/// U+2028, U+2029, U+202F, U+205F and U+3000.
pub open spec fn is_ws(c: char) -> bool {
    let u = c as u32;
    ||| u == 0x20
    ||| (0x09 <= u && u <= 0x0d)
    ||| u == 0x85
    ||| u == 0xa0
    ||| u == 0x1680
    ||| (0x2000 <= u && u <= 0x200a)
    ||| u == 0x2028
    ||| u == 0x2029
    ||| u == 0x202f
    ||| u == 0x205f
    ||| u == 0x3000
}

/// Whether `c` is white space, as `char::is_whitespace` decides it.
pub fn is_whitespace(c: char) -> (r: bool)
    ensures
        r == is_ws(c),
{
    let u = c as u32;
    u == 0x20 || (0x09 <= u && u <= 0x0d) || u == 0x85 || u == 0xa0 || u == 0x1680 || (0x2000
        <= u && u <= 0x200a) || u == 0x2028 || u == 0x2029 || u == 0x202f || u == 0x205f || u
        == 0x3000
}

/// `s` without its leading white space.
pub open spec fn trim_start(s: Seq<char>) -> Seq<char>
    decreases s.len(),
{
    if s.len() > 0 && is_ws(s[0]) {
        trim_start(s.drop_first())
    } else {
        s
    }
}

/// `s` without its trailing white space.
pub open spec fn trim_end(s: Seq<char>) -> Seq<char>
    decreases s.len(),
{
    if s.len() > 0 && is_ws(s.last()) {
        trim_end(s.drop_last())
    } else {
        s
    }
}

/// `s` without its leading and trailing white space.
pub open spec fn trim(s: Seq<char>) -> Seq<char> {
    trim_end(trim_start(s))
}

/// Whether `s` begins with `p`.
pub open spec fn starts_with(s: Seq<char>, p: Seq<char>) -> bool {
    p.len() <= s.len() && s.take(p.len() as int) == p
}

/// Whether `s` ends with `p`.
pub open spec fn ends_with(s: Seq<char>, p: Seq<char>) -> bool {
    p.len() <= s.len() && s.skip(s.len() - p.len()) == p
}

/// Skipping a run of white space at the front is trimming the start.
pub proof fn lemma_trim_start_skip(s: Seq<char>, i: int)
    requires
        0 <= i <= s.len(),
        forall|j: int| 0 <= j < i ==> is_ws(#[trigger] s[j]),
        i == s.len() || !is_ws(s[i]),
    ensures
        trim_start(s) == s.skip(i),
    decreases i,
{
    if i == 0 {
        assert(s.skip(0) =~= s);
    } else {
        let t = s.drop_first();
        assert forall|j: int| 0 <= j < i - 1 implies is_ws(#[trigger] t[j]) by {
            assert(t[j] == s[j + 1]);
        }
        lemma_trim_start_skip(t, i - 1);
        assert(t.skip(i - 1) =~= s.skip(i));
    }
}

/// Dropping a run of white space at the back is trimming the end.
pub proof fn lemma_trim_end_take(s: Seq<char>, k: int)
    requires
        0 <= k <= s.len(),
        forall|j: int| k <= j < s.len() ==> is_ws(#[trigger] s[j]),
        k == 0 || !is_ws(s[k - 1]),
    ensures
        trim_end(s) == s.take(k),
    decreases s.len() - k,
{
    if k == s.len() {
        assert(s.take(k) =~= s);
    } else {
        let t = s.drop_last();
        assert forall|j: int| k <= j < t.len() implies is_ws(#[trigger] t[j]) by {
            assert(t[j] == s[j]);
        }
        lemma_trim_end_take(t, k);
        assert(t.take(k) =~= s.take(k));
    }
}

/// Trimming never makes a text longer.
pub proof fn lemma_trim_start_len(s: Seq<char>)
    ensures
        trim_start(s).len() <= s.len(),
    decreases s.len(),
{
    if s.len() > 0 && is_ws(s[0]) {
        lemma_trim_start_len(s.drop_first());
    }
}

/// Trimming never makes a text longer.
pub proof fn lemma_trim_end_len(s: Seq<char>)
    ensures
        trim_end(s).len() <= s.len(),
    decreases s.len(),
{
    if s.len() > 0 && is_ws(s.last()) {
        lemma_trim_end_len(s.drop_last());
    }
}

/// Trimming never makes a text longer.
pub proof fn lemma_trim_len(s: Seq<char>)
    ensures
        trim(s).len() <= s.len(),
{
    lemma_trim_start_len(s);
    lemma_trim_end_len(trim_start(s));
}

/// The characters of `s`, in order.
pub fn char_vec(s: &str) -> (v: Vec<char>)
    ensures
        v@ == s@,
{
    let mut v: Vec<char> = Vec::new();
    for c in it: s.chars()
        invariant
            v@ == it.seq().take(it.index() as int),
            it.seq() == s@,
    {
        v.push(c);
    }
    v
}

/// Index of the first character of `v` at or after `from` that is not white space.
fn skip_ws(v: &Vec<char>, from: usize) -> (i: usize)
    requires
        from <= v.len(),
    ensures
        from <= i <= v.len(),
        forall|j: int| from <= j < i ==> is_ws(#[trigger] v@[j]),
        i == v.len() || !is_ws(v@[i as int]),
{
    let mut i = from;
    while i < v.len() && is_whitespace(v[i])
        invariant
            from <= i <= v.len(),
            forall|j: int| from <= j < i ==> is_ws(#[trigger] v@[j]),
        decreases v.len() - i,
    {
        i = i + 1;
    }
    i
}

/// `s` without its leading white space, as `str::trim_start` gives it.
pub fn trim_start_str(s: &str) -> (r: &str)
    ensures
        r@ == trim_start(s@),
{
    let v = char_vec(s);
    let i = skip_ws(&v, 0);
    proof {
        lemma_trim_start_skip(s@, i as int);
    }
    s.substring_char(i, v.len())
}

/// `s` without its leading and trailing white space, as `str::trim` gives it.
pub fn trim_str(s: &str) -> (r: &str)
    ensures
        r@ == trim(s@),
{
    let v = char_vec(s);
    let i = skip_ws(&v, 0);
    let mut k = v.len();
    while k > i && is_whitespace(v[k - 1])
        invariant
            i <= k <= v.len(),
            v@ == s@,
            forall|j: int| k <= j < v.len() ==> is_ws(#[trigger] v@[j]),
        decreases k,
    {
        k = k - 1;
    }
    proof {
        lemma_trim_start_skip(s@, i as int);
        let t = s@.skip(i as int);
        assert forall|j: int| k - i <= j < t.len() implies is_ws(#[trigger] t[j]) by {
            assert(t[j] == s@[j + i]);
        }
        if k > i {
            assert(t[k - i - 1] == s@[k - 1]);
        }
        lemma_trim_end_take(t, k - i);
        assert(t.take(k - i) =~= s@.subrange(i as int, k as int));
    }
    s.substring_char(i, k)
}

/// Whether `s` begins with the characters of `p`.
pub fn str_starts_with(s: &str, p: &str) -> (r: bool)
    ensures
        r == starts_with(s@, p@),
{
    let sv = char_vec(s);
    let pv = char_vec(p);
    if pv.len() > sv.len() {
        return false;
    }
    let mut i: usize = 0;
    while i < pv.len()
        invariant
            pv.len() <= sv.len(),
            i <= pv.len(),
            sv@ == s@,
            pv@ == p@,
            forall|j: int| 0 <= j < i ==> sv@[j] == pv@[j],
        decreases pv.len() - i,
    {
        if sv[i] != pv[i] {
            assert(s@.take(p@.len() as int)[i as int] != p@[i as int]);
            return false;
        }
        i = i + 1;
    }
    assert(s@.take(p@.len() as int) =~= p@);
    true
}

/// Whether `s` ends with the characters of `p`.
pub fn str_ends_with(s: &str, p: &str) -> (r: bool)
    ensures
        r == ends_with(s@, p@),
{
    let sv = char_vec(s);
    let pv = char_vec(p);
    if pv.len() > sv.len() {
        return false;
    }
    let off = sv.len() - pv.len();
    let mut i: usize = 0;
    while i < pv.len()
        invariant
            pv.len() <= sv.len(),
            off == sv.len() - pv.len(),
            i <= pv.len(),
            sv@ == s@,
            pv@ == p@,
            forall|j: int| 0 <= j < i ==> sv@[off + j] == pv@[j],
        decreases pv.len() - i,
    {
        if sv[off + i] != pv[i] {
            assert(s@.skip(off as int)[i as int] != p@[i as int]);
            return false;
        }
        i = i + 1;
    }
    assert(s@.skip(off as int) =~= p@);
    true
}

/// Position of the first `c` in `s`, or `s.len()` where there is none.
pub open spec fn first_index(s: Seq<char>, c: char) -> nat
    decreases s.len(),
{
    if s.len() == 0 || s[0] == c {
        0
    } else {
        1 + first_index(s.drop_first(), c)
    }
}

/// `l` without one final carriage return.
pub open spec fn strip_cr(l: Seq<char>) -> Seq<char> {
    if l.len() > 0 && l.last() == '\r' {
        l.drop_last()
    } else {
        l
    }
}

/// The lines of `s`, as `str::lines` yields them: split at each line feed,
/// a carriage return right before a line feed dropped, and no empty last
/// line after a final line feed.
pub open spec fn lines_of(s: Seq<char>) -> Seq<Seq<char>>
    decreases s.len(),
{
    if s.len() == 0 {
        seq![]
    } else {
        let i = first_index(s, '\n');
        if i >= s.len() {
            seq![s]
        } else {
            seq![strip_cr(s.take(i as int))] + lines_of(s.skip(i + 1 as int))
        }
    }
}

/// The lines `ls` joined with line feeds, as `join("\n")` on a slice of strings.
pub open spec fn join_lines(ls: Seq<Seq<char>>) -> Seq<char>
    decreases ls.len(),
{
    if ls.len() == 0 {
        seq![]
    } else if ls.len() == 1 {
        ls[0]
    } else {
        ls[0] + seq!['\n'] + join_lines(ls.drop_first())
    }
}

/// The texts of a sequence of strings.
pub open spec fn lines_view(v: Seq<String>) -> Seq<Seq<char>> {
    v.map_values(|l: String| l@)
}

/// The first `c` of `s` is at `k` when the characters before `k` are not
/// `c` and `k` holds one (or is the end).
pub proof fn lemma_first_index(s: Seq<char>, c: char, k: int)
    requires
        0 <= k <= s.len(),
        forall|j: int| 0 <= j < k ==> #[trigger] s[j] != c,
        k == s.len() || s[k] == c,
    ensures
        first_index(s, c) == k,
    decreases k,
{
    if k > 0 {
        let t = s.drop_first();
        assert forall|j: int| 0 <= j < k - 1 implies #[trigger] t[j] != c by {
            assert(t[j] == s[j + 1]);
        }
        lemma_first_index(t, c, k - 1);
    }
}

/// `first_index` never passes the end.
pub proof fn lemma_first_index_bound(s: Seq<char>, c: char)
    ensures
        first_index(s, c) <= s.len(),
    decreases s.len(),
{
    if s.len() > 0 && s[0] != c {
        lemma_first_index_bound(s.drop_first(), c);
    }
}

/// At `first_index(s, c)` stands a `c`, unless it is the end; before it stands none.
pub proof fn lemma_first_index_found(s: Seq<char>, c: char)
    ensures
        first_index(s, c) <= s.len(),
        first_index(s, c) < s.len() ==> s[first_index(s, c) as int] == c,
        forall|j: int| 0 <= j < first_index(s, c) ==> #[trigger] s[j] != c,
    decreases s.len(),
{
    if s.len() > 0 && s[0] != c {
        let t = s.drop_first();
        lemma_first_index_found(t, c);
        assert forall|j: int| 0 <= j < first_index(s, c) implies #[trigger] s[j] != c by {
            if j > 0 {
                assert(s[j] == t[j - 1]);
            }
        }
    }
}

/// Position of the first `c` in `v`, or `v.len()` where there is none.
pub fn find_char(v: &Vec<char>, c: char) -> (i: usize)
    ensures
        i == first_index(v@, c),
{
    let mut i: usize = 0;
    while i < v.len() && v[i] != c
        invariant
            i <= v.len(),
            forall|j: int| 0 <= j < i ==> #[trigger] v@[j] != c,
        decreases v.len() - i,
    {
        i = i + 1;
    }
    proof {
        lemma_first_index(v@, c, i as int);
    }
    i
}

/// Joining the lines of a text never gives a longer text.
pub proof fn lemma_join_lines_of_len(s: Seq<char>)
    ensures
        join_lines(lines_of(s)).len() <= s.len(),
    decreases s.len(),
{
    if s.len() > 0 {
        let i = first_index(s, '\n');
        lemma_first_index_bound(s, '\n');
        if i < s.len() {
            let rest = s.skip(i + 1 as int);
            lemma_join_lines_of_len(rest);
            let ls = lines_of(s);
            assert(ls.drop_first() =~= lines_of(rest));
            if lines_of(rest).len() == 0 {
                assert(ls.len() == 1);
            }
        }
    }
}

/// A text has lines exactly when it is not empty.
pub proof fn lemma_lines_of_nonempty(s: Seq<char>)
    ensures
        (lines_of(s).len() == 0) == (s.len() == 0),
{
}

/// Dropping the first line never makes the joined text longer; with two
/// lines or more it makes it shorter.
pub proof fn lemma_join_drop_first(ls: Seq<Seq<char>>)
    requires
        ls.len() > 0,
    ensures
        join_lines(ls.drop_first()).len() <= join_lines(ls).len(),
        ls.len() > 1 ==> join_lines(ls.drop_first()).len() < join_lines(ls).len(),
        ls.len() == 1 ==> join_lines(ls.drop_first()).len() == 0,
{
}

/// Appending one line to a non-empty list of lines.
pub proof fn lemma_join_push(ls: Seq<Seq<char>>, l: Seq<char>)
    requires
        ls.len() > 0,
    ensures
        join_lines(ls.push(l)) == join_lines(ls) + seq!['\n'] + l,
    decreases ls.len(),
{
    if ls.len() == 1 {
        assert(ls.push(l).drop_first() =~= seq![l]);
        assert(join_lines(seq![l]) == l);
        assert(ls.push(l)[0] == ls[0]);
        assert(join_lines(ls) == ls[0]);
    } else {
        lemma_join_push(ls.drop_first(), l);
        assert(ls.push(l).drop_first() =~= ls.drop_first().push(l));
        assert(join_lines(ls.push(l)) =~= join_lines(ls) + seq!['\n'] + l);
    }
}

/// The lines of `s`, as `str::lines` yields them, each as a `String`.
pub fn split_lines(s: &str) -> (out: Vec<String>)
    ensures
        lines_view(out@) == lines_of(s@),
{
    let v = char_vec(s);
    let n = v.len();
    let mut out: Vec<String> = Vec::new();
    let mut start: usize = 0;
    assert(s@.skip(0) =~= s@);
    while start < n
        invariant
            n == v.len(),
            v@ == s@,
            start <= n,
            lines_view(out@) + lines_of(s@.skip(start as int)) == lines_of(s@),
        decreases n - start,
    {
        let ghost t = s@.skip(start as int);
        let ghost before = out@;
        let mut i = start;
        while i < n && v[i] != '\n'
            invariant
                start <= i <= n,
                n == v.len(),
                forall|j: int| start <= j < i ==> #[trigger] v@[j] != '\n',
            decreases n - i,
        {
            i = i + 1;
        }
        proof {
            assert forall|j: int| 0 <= j < i - start implies #[trigger] t[j] != '\n' by {
                assert(t[j] == v@[j + start]);
            }
            lemma_first_index(t, '\n', i - start);
        }
        if i == n {
            let line = s.substring_char(start, n).to_owned();
            out.push(line);
            proof {
                assert(t =~= s@.subrange(start as int, n as int));
                assert(lines_view(out@) =~= lines_view(before).push(t));
                assert(s@.skip(n as int) =~= Seq::<char>::empty());
                assert(lines_of(t) =~= seq![t]);
            }
            start = n;
        } else {
            let end = if i > start && v[i - 1] == '\r' {
                i - 1
            } else {
                i
            };
            let line = s.substring_char(start, end).to_owned();
            out.push(line);
            proof {
                assert(strip_cr(t.take(i - start)) =~= s@.subrange(start as int, end as int));
                assert(lines_view(out@) =~= lines_view(before).push(
                    strip_cr(t.take(i - start)),
                ));
                assert(t.skip(i - start + 1) =~= s@.skip(i + 1));
                assert(lines_of(t) =~= seq![strip_cr(t.take(i - start))] + lines_of(
                    s@.skip(i + 1),
                ));
                assert(lines_view(out@) + lines_of(s@.skip(i + 1)) =~= lines_view(before)
                    + lines_of(t));
            }
            start = i + 1;
        }
    }
    proof {
        assert(s@.skip(n as int) =~= Seq::<char>::empty());
        assert(lines_view(out@) =~= lines_view(out@) + lines_of(s@.skip(n as int)));
    }
    out
}

/// The lines `ls` joined with line feeds, as `ls.join("\n")` gives it.
pub fn join_strings(ls: &Vec<String>) -> (r: String)
    ensures
        r@ == join_lines(lines_view(ls@)),
{
    let mut r = String::new();
    let mut i: usize = 0;
    while i < ls.len()
        invariant
            i <= ls.len(),
            r@ == join_lines(lines_view(ls@).take(i as int)),
        decreases ls.len() - i,
    {
        let ghost prev = lines_view(ls@).take(i as int);
        if i > 0 {
            r.append("\n");
            proof {
                reveal_strlit("\n");
            }
        }
        r.append(ls[i].as_str());
        proof {
            let next = lines_view(ls@).take(i + 1);
            if i == 0 {
                assert(next =~= seq![ls@[0]@]);
            } else {
                lemma_join_push(prev, ls@[i as int]@);
                assert(next =~= prev.push(ls@[i as int]@));
            }
        }
        i = i + 1;
    }
    assert(lines_view(ls@).take(ls.len() as int) =~= lines_view(ls@));
    r
}

/// Whether `a` and `b` are the same text.
pub fn str_eq(a: &str, b: &str) -> (r: bool)
    ensures
        r == (a@ == b@),
{
    let same_start = str_starts_with(a, b);
    let n = a.unicode_len();
    let m = b.unicode_len();
    proof {
        if same_start && n == m {
            assert(a@ =~= a@.take(b@.len() as int));
        }
        if a@ == b@ {
            assert(a@.take(b@.len() as int) =~= b@);
        }
    }
    same_start && n == m
}

/// No line holds a line feed or a carriage return.
pub open spec fn clean_lines(ls: Seq<Seq<char>>) -> bool {
    forall|i: int|
        0 <= i < ls.len() ==> !(#[trigger] ls[i]).contains('\n') && !ls[i].contains('\r')
}

/// Removing characters from the front keeps a character out.
pub proof fn lemma_trim_start_keeps_out(x: Seq<char>, c: char)
    requires
        !x.contains(c),
    ensures
        !trim_start(x).contains(c),
    decreases x.len(),
{
    if x.len() > 0 && is_ws(x[0]) {
        assert forall|j: int| 0 <= j < x.drop_first().len() implies x.drop_first()[j] != c by {
            assert(x.drop_first()[j] == x[j + 1]);
        }
        lemma_trim_start_keeps_out(x.drop_first(), c);
    }
}

/// Removing characters from the back keeps a character out.
pub proof fn lemma_trim_end_keeps_out(x: Seq<char>, c: char)
    requires
        !x.contains(c),
    ensures
        !trim_end(x).contains(c),
    decreases x.len(),
{
    if x.len() > 0 && is_ws(x.last()) {
        assert forall|j: int| 0 <= j < x.drop_last().len() implies x.drop_last()[j] != c by {
            assert(x.drop_last()[j] == x[j]);
        }
        lemma_trim_end_keeps_out(x.drop_last(), c);
    }
}

/// Trimming keeps a character out.
pub proof fn lemma_trim_keeps_out(x: Seq<char>, c: char)
    requires
        !x.contains(c),
    ensures
        !trim(x).contains(c),
{
    lemma_trim_start_keeps_out(x, c);
    lemma_trim_end_keeps_out(trim_start(x), c);
}

/// The lines of a text without carriage returns hold neither line feeds
/// nor carriage returns.
pub proof fn lemma_lines_of_clean(s: Seq<char>)
    requires
        !s.contains('\r'),
    ensures
        clean_lines(lines_of(s)),
    decreases s.len(),
{
    if s.len() > 0 {
        let i = first_index(s, '\n');
        lemma_first_index_found(s, '\n');
        if i < s.len() {
            let rest = s.skip(i + 1 as int);
            assert forall|j: int| 0 <= j < rest.len() implies rest[j] != '\r' by {
                assert(rest[j] == s[j + i + 1]);
            }
            lemma_lines_of_clean(rest);
            let first = s.take(i as int);
            assert(strip_cr(first) == first);
            let ls = lines_of(s);
            assert forall|k: int| 0 <= k < ls.len() implies !(#[trigger] ls[k]).contains('\n')
                && !ls[k].contains('\r') by {
                if k == 0 {
                    assert(ls[0] == first);
                    assert forall|j: int| 0 <= j < first.len() implies first[j] != '\n'
                        && first[j] != '\r' by {
                        assert(first[j] == s[j]);
                    }
                } else {
                    assert(ls[k] == lines_of(rest)[k - 1]);
                }
            }
        } else {
            assert(lines_of(s) =~= seq![s]);
            assert forall|j: int| 0 <= j < s.len() implies s[j] != '\n' by {}
        }
    }
}

/// The last line of a text that does not end with a line feed is not
/// empty and ends as the text does.
pub proof fn lemma_lines_of_last(s: Seq<char>)
    requires
        s.len() > 0,
        s.last() != '\n',
        !s.contains('\r'),
    ensures
        lines_of(s).len() > 0,
        lines_of(s).last().len() > 0,
        lines_of(s).last().last() == s.last(),
    decreases s.len(),
{
    let i = first_index(s, '\n');
    lemma_first_index_found(s, '\n');
    if i < s.len() {
        let rest = s.skip(i + 1 as int);
        assert(i < s.len() - 1);
        assert(rest.last() == s.last());
        assert forall|j: int| 0 <= j < rest.len() implies rest[j] != '\r' by {
            assert(rest[j] == s[j + i + 1]);
        }
        lemma_lines_of_last(rest);
        assert(lines_of(s).last() == lines_of(rest).last());
    } else {
        assert(lines_of(s) =~= seq![s]);
    }
}

/// Clean lines, joined, hold no carriage return.
pub proof fn lemma_join_clean(ls: Seq<Seq<char>>)
    requires
        clean_lines(ls),
    ensures
        !join_lines(ls).contains('\r'),
    decreases ls.len(),
{
    if ls.len() > 1 {
        let rest = ls.drop_first();
        assert forall|i: int| 0 <= i < rest.len() implies !(#[trigger] rest[i]).contains('\n')
            && !rest[i].contains('\r') by {
            assert(rest[i] == ls[i + 1]);
        }
        lemma_join_clean(rest);
        let j = join_lines(ls);
        assert(!ls[0].contains('\r'));
        assert forall|k: int| 0 <= k < j.len() implies j[k] != '\r' by {
            if k < ls[0].len() {
                assert(j[k] == ls[0][k]);
            } else if k > ls[0].len() {
                assert(j[k] == join_lines(rest)[k - ls[0].len() - 1]);
            }
        }
    } else if ls.len() == 1 {
        assert(!ls[0].contains('\r'));
    }
}

/// Splitting clean lines, joined, gives them back, unless the last is empty.
pub proof fn lemma_lines_of_join(ls: Seq<Seq<char>>)
    requires
        clean_lines(ls),
        ls.len() == 0 || ls.last().len() > 0,
    ensures
        lines_of(join_lines(ls)) == ls,
    decreases ls.len(),
{
    if ls.len() == 1 {
        let l = ls[0];
        assert(!l.contains('\n'));
        lemma_first_index(l, '\n', l.len() as int);
        assert(lines_of(l) =~= seq![l]);
        assert(ls =~= seq![l]);
    } else if ls.len() > 1 {
        let l = ls[0];
        let rest = ls.drop_first();
        assert forall|i: int| 0 <= i < rest.len() implies !(#[trigger] rest[i]).contains('\n')
            && !rest[i].contains('\r') by {
            assert(rest[i] == ls[i + 1]);
        }
        assert(rest.last() == ls.last());
        lemma_lines_of_join(rest);
        let j = join_lines(ls);
        assert(j =~= l + seq!['\n'] + join_lines(rest));
        assert(!l.contains('\n') && !l.contains('\r'));
        assert forall|k: int| 0 <= k < l.len() implies #[trigger] j[k] != '\n' by {
            assert(j[k] == l[k]);
        }
        lemma_first_index(j, '\n', l.len() as int);
        assert(j.take(l.len() as int) =~= l);
        assert(strip_cr(l) == l);
        assert(j.skip(l.len() + 1 as int) =~= join_lines(rest));
        assert(lines_of(j) =~= seq![l] + rest);
        assert(seq![l] + rest =~= ls);
    }
}

/// Removing the white space at the front of a text whose first part holds
/// something else only changes that part.
pub proof fn lemma_trim_start_concat(a: Seq<char>, b: Seq<char>)
    requires
        trim_start(a).len() > 0,
    ensures
        trim_start(a + b) == trim_start(a) + b,
    decreases a.len(),
{
    if a.len() > 0 && is_ws(a[0]) {
        lemma_trim_start_concat(a.drop_first(), b);
        assert((a + b).drop_first() =~= a.drop_first() + b);
    } else {
        assert(a.len() > 0);
        assert((a + b)[0] == a[0]);
    }
}

/// Joined lines end as their last line does.
pub proof fn lemma_join_last(ls: Seq<Seq<char>>)
    requires
        ls.len() > 0,
        ls.last().len() > 0,
    ensures
        join_lines(ls).len() > 0,
        join_lines(ls).last() == ls.last().last(),
    decreases ls.len(),
{
    if ls.len() > 1 {
        let rest = ls.drop_first();
        assert(rest.last() == ls.last());
        lemma_join_last(rest);
    }
}

/// Trimming joined lines whose first line holds more than white space, and
/// whose last line ends with something other than white space, trims the
/// front of the first line only.
pub proof fn lemma_trim_join(ls: Seq<Seq<char>>)
    requires
        ls.len() > 0,
        trim_start(ls[0]).len() > 0,
        ls.last().len() > 0,
        !is_ws(ls.last().last()),
    ensures
        trim(join_lines(ls)) == join_lines(ls.update(0, trim_start(ls[0]))),
{
    let l2 = ls.update(0, trim_start(ls[0]));
    let j = join_lines(ls);
    let j2 = join_lines(l2);
    if ls.len() == 1 {
        assert(ls[0] + Seq::<char>::empty() =~= ls[0]);
        lemma_trim_start_concat(ls[0], Seq::<char>::empty());
        assert(trim_start(ls[0]) + Seq::<char>::empty() =~= trim_start(ls[0]));
        assert(j2 == trim_start(ls[0]));
        lemma_trim_start_suffix_last(ls[0]);
    } else {
        let tail = seq!['\n'] + join_lines(ls.drop_first());
        assert(j =~= ls[0] + tail);
        assert(l2.drop_first() =~= ls.drop_first());
        assert(j2 =~= trim_start(ls[0]) + tail);
        lemma_trim_start_concat(ls[0], tail);
        assert(l2.last() == ls.last());
        lemma_join_last(l2);
    }
    assert(trim_start(j) == j2);
    assert(j2.len() > 0 && !is_ws(j2.last()));
}

/// Trimming the front of a text that holds more than white space keeps
/// its last character.
proof fn lemma_trim_start_suffix_last(x: Seq<char>)
    requires
        trim_start(x).len() > 0,
    ensures
        trim_start(x).last() == x.last(),
    decreases x.len(),
{
    if x.len() > 0 && is_ws(x[0]) {
        lemma_trim_start_suffix_last(x.drop_first());
    }
}

} // verus!
