use vstd::prelude::*;

use crate::document::{DocView, FieldName, ParseError, TikaDocument};
use crate::text::string_of_chars;

verus! {

// A document file opens with a "---" line, then a metadata block of
// "key: value" lines ("tags" may instead be followed by "- item" lines),
// then a "---" line, then the Markdown body.  A delimiter line may carry a
// trailing carriage return, so files with CRLF line endings parse too.  The
// parser extracts the metadata fields and the body; it never sees the
// file's path, so `full_path` stays empty and the checksum is the caller's
// concern.
//
// Of each key the first occurrence wins, and a scalar value is trimmed and
// loses one surrounding pair of quotes (escapes inside quotes stay as
// written).  `title` and `date` must be present with a nonempty value.
// `tags` must be declared, and carries a scalar (read as a one-element
// list), a "[...]" flow sequence of scalar elements (read element by
// element, "[]" as the empty list), or an empty value opening a possibly
// empty "- item" list.  A tags value that is none of these — a mapping, a
// malformed or nested flow value, or a nested value on an indented
// continuation line — fails the parse; nothing is silently coerced.
// `author` and `filename` default to empty.

/// First index at or after `i` holding '\n' (or the end of `s`).
pub open spec fn first_nl(s: Seq<char>, i: int) -> int
    decreases s.len() - i,
{
    if i < s.len() && s[i] != '\n' {
        first_nl(s, i + 1)
    } else {
        i
    }
}

pub proof fn lemma_first_nl_bounds(s: Seq<char>, i: int)
    ensures
        i <= first_nl(s, i),
        i <= s.len() ==> first_nl(s, i) <= s.len(),
    decreases s.len() - i,
{
    if i < s.len() && s[i] != '\n' {
        lemma_first_nl_bounds(s, i + 1);
    }
}

/// The lines of `s` from position `i` on, split on '\n' (separators dropped).
pub open spec fn spec_lines_from(s: Seq<char>, i: int) -> Seq<Seq<char>>
    decreases s.len() - i,
    via spec_lines_from_decreases
{
    if i >= s.len() {
        Seq::empty()
    } else {
        let e = first_nl(s, i);
        if e >= s.len() {
            seq![s.subrange(i, s.len() as int)]
        } else {
            seq![s.subrange(i, e)] + spec_lines_from(s, e + 1)
        }
    }
}

#[via_fn]
proof fn spec_lines_from_decreases(s: Seq<char>, i: int) {
    lemma_first_nl_bounds(s, i);
}

pub open spec fn is_delim(l: Seq<char>) -> bool {
    l =~= seq!['-', '-', '-'] || l =~= seq!['-', '-', '-', '\r']
}

/// First index at or after `i` holding a "---" line (or `ls.len()`).
pub open spec fn delim_from(ls: Seq<Seq<char>>, i: int) -> int
    decreases ls.len() - i,
{
    if i < ls.len() {
        if is_delim(ls[i]) {
            i
        } else {
            delim_from(ls, i + 1)
        }
    } else {
        i
    }
}

pub open spec fn spec_is_space(c: char) -> bool {
    c == ' ' || c == '\t' || c == '\r'
}

pub open spec fn trim_front(s: Seq<char>) -> Seq<char>
    decreases s.len(),
{
    if s.len() > 0 && spec_is_space(s[0]) {
        trim_front(s.skip(1))
    } else {
        s
    }
}

pub open spec fn trim_back(s: Seq<char>) -> Seq<char>
    decreases s.len(),
{
    if s.len() > 0 && spec_is_space(s[s.len() - 1]) {
        trim_back(s.take(s.len() - 1))
    } else {
        s
    }
}

/// `s` without leading and trailing blanks (spaces, tabs, carriage returns).
pub open spec fn spec_trim(s: Seq<char>) -> Seq<char> {
    trim_back(trim_front(s))
}

/// A value written inside one pair of matching quotes.
pub open spec fn is_quoted(s: Seq<char>) -> bool {
    s.len() >= 2 && ((s[0] == '"' && s[s.len() - 1] == '"') || (s[0] == '\'' && s[s.len() - 1]
        == '\''))
}

/// `s` without one surrounding pair of quotes, where it has one.  Escapes
/// inside a quoted value are not interpreted; they stay as written.
pub open spec fn spec_unquote(s: Seq<char>) -> Seq<char> {
    if is_quoted(s) {
        s.subrange(1, s.len() - 1)
    } else {
        s
    }
}

/// First index at or after `i` holding ',' (or the end of `s`).
pub open spec fn next_comma(s: Seq<char>, i: int) -> int
    decreases s.len() - i,
{
    if i < s.len() && s[i] != ',' {
        next_comma(s, i + 1)
    } else {
        i
    }
}

pub proof fn lemma_next_comma_bounds(s: Seq<char>, i: int)
    ensures
        i <= next_comma(s, i),
        i <= s.len() ==> next_comma(s, i) <= s.len(),
    decreases s.len() - i,
{
    if i < s.len() && s[i] != ',' {
        lemma_next_comma_bounds(s, i + 1);
    }
}

/// The comma-separated raw elements of `s` from `i` on, each trimmed; a
/// trailing comma adds nothing.
pub open spec fn flow_elems(s: Seq<char>, i: int) -> Seq<Seq<char>>
    decreases s.len() - i,
    via flow_elems_decreases
{
    if i >= s.len() {
        Seq::empty()
    } else {
        let e = next_comma(s, i);
        if e >= s.len() {
            seq![spec_trim(s.subrange(i, s.len() as int))]
        } else {
            seq![spec_trim(s.subrange(i, e))] + flow_elems(s, e + 1)
        }
    }
}

#[via_fn]
proof fn flow_elems_decreases(s: Seq<char>, i: int) {
    lemma_next_comma_bounds(s, i);
}

/// A flow element this format reads: quoted, or plain, nonempty and not
/// itself opening a nested flow value.
pub open spec fn plain_ok(r: Seq<char>) -> bool {
    is_quoted(r) || (r.len() > 0 && r[0] != '[' && r[0] != '{')
}

/// Every element of the flow text from `i` on is one this format reads.
pub open spec fn flow_ok_from(s: Seq<char>, i: int) -> bool
    decreases s.len() - i,
    via flow_ok_from_decreases
{
    if i >= s.len() {
        true
    } else {
        let e = next_comma(s, i);
        if e >= s.len() {
            plain_ok(spec_trim(s.subrange(i, s.len() as int)))
        } else {
            plain_ok(spec_trim(s.subrange(i, e))) && flow_ok_from(s, e + 1)
        }
    }
}

#[via_fn]
proof fn flow_ok_from_decreases(s: Seq<char>, i: int) {
    lemma_next_comma_bounds(s, i);
}

/// Each element without its quotes.
pub open spec fn unquoted_all(es: Seq<Seq<char>>) -> Seq<Seq<char>> {
    Seq::new(es.len(), |k: int| spec_unquote(es[k]))
}

/// The tag list a well-formed flow text denotes.
pub open spec fn flow_values(s: Seq<char>) -> Seq<Seq<char>> {
    unquoted_all(flow_elems(s, 0))
}

pub open spec fn key_title() -> Seq<char> {
    seq!['t', 'i', 't', 'l', 'e', ':']
}

pub open spec fn key_date() -> Seq<char> {
    seq!['d', 'a', 't', 'e', ':']
}

pub open spec fn key_tags() -> Seq<char> {
    seq!['t', 'a', 'g', 's', ':']
}

pub open spec fn key_author() -> Seq<char> {
    seq!['a', 'u', 't', 'h', 'o', 'r', ':']
}

pub open spec fn key_filename() -> Seq<char> {
    seq!['f', 'i', 'l', 'e', 'n', 'a', 'm', 'e', ':']
}

pub open spec fn item_prefix() -> Seq<char> {
    seq!['-', ' ']
}

pub open spec fn starts_with(l: Seq<char>, p: Seq<char>) -> bool {
    l.len() >= p.len() && l.take(p.len() as int) =~= p
}

/// First index at or after `i` whose line opens with `p` (or `ls.len()`).
pub open spec fn key_at(ls: Seq<Seq<char>>, p: Seq<char>, i: int) -> int
    decreases ls.len() - i,
{
    if i < ls.len() {
        if starts_with(ls[i], p) {
            i
        } else {
            key_at(ls, p, i + 1)
        }
    } else {
        i
    }
}

pub proof fn lemma_key_at_props(ls: Seq<Seq<char>>, p: Seq<char>, i: int)
    ensures
        i <= key_at(ls, p, i),
        i <= ls.len() ==> key_at(ls, p, i) <= ls.len(),
        i <= key_at(ls, p, i) < ls.len() ==> starts_with(ls[key_at(ls, p, i)], p),
    decreases ls.len() - i,
{
    if i < ls.len() && !starts_with(ls[i], p) {
        lemma_key_at_props(ls, p, i + 1);
    }
}

/// The value of the first "key..." line of the block, trimmed and without
/// surrounding quotes, if any such line exists.
pub open spec fn scalar_of(ls: Seq<Seq<char>>, p: Seq<char>) -> Option<Seq<char>> {
    let i = key_at(ls, p, 0);
    if i < ls.len() {
        Some(spec_unquote(spec_trim(ls[i].skip(p.len() as int))))
    } else {
        None
    }
}

/// First index at or after `i` whose line is not a "- item" line.
pub open spec fn items_end(ls: Seq<Seq<char>>, i: int) -> int
    decreases ls.len() - i,
{
    if i < ls.len() && starts_with(ls[i], item_prefix()) {
        items_end(ls, i + 1)
    } else {
        i
    }
}

/// The values of the "- item" lines at positions `i` .. `e`, each trimmed
/// and without surrounding quotes.
pub open spec fn item_values(ls: Seq<Seq<char>>, i: int, e: int) -> Seq<Seq<char>> {
    Seq::new((e - i) as nat, |k: int| spec_unquote(spec_trim(ls[i + k].skip(2))))
}

/// The tag list of the block: None when no "tags" line exists; a scalar
/// value (quotes stripped) wraps into a one-element sequence; a "[...]"
/// flow sequence of scalars is taken element by element; an empty value
/// takes the following item lines, in order, possibly none.
pub open spec fn tags_of(ls: Seq<Seq<char>>) -> Option<Seq<Seq<char>>> {
    let i = key_at(ls, key_tags(), 0);
    if i >= ls.len() {
        None
    } else {
        tags_of_at(ls, i)
    }
}

/// The tags value is neither a scalar nor a sequence this format reads, at
/// the "tags" line `i`: a mapping scalar, a malformed or nested flow value,
/// or an empty value continued by an indented line (a nested value).  Such
/// a file fails; nothing is coerced.
pub open spec fn tags_bad_at(ls: Seq<Seq<char>>, i: int) -> bool {
    let v = spec_trim(ls[i].skip(5));
    if v.len() > 0 {
        if is_quoted(v) {
            false
        } else if v[0] == '[' {
            !(v[v.len() - 1] == ']' && (spec_trim(v.subrange(1, v.len() - 1)).len() == 0
                || flow_ok_from(spec_trim(v.subrange(1, v.len() - 1)), 0)))
        } else {
            v[0] == '{'
        }
    } else {
        i + 1 < ls.len() && ls[i + 1].len() > 0 && (ls[i + 1][0] == ' ' || ls[i + 1][0] == '\t')
    }
}

/// Whether the block's first "tags" line carries a value `tags_bad_at` rejects.
pub open spec fn tags_bad(ls: Seq<Seq<char>>) -> bool {
    let i = key_at(ls, key_tags(), 0);
    i < ls.len() && tags_bad_at(ls, i)
}

/// The body text: the given lines joined back with '\n'.
pub open spec fn join_lines(ls: Seq<Seq<char>>) -> Seq<char>
    decreases ls.len(),
{
    if ls.len() == 0 {
        Seq::empty()
    } else if ls.len() == 1 {
        ls[0]
    } else {
        ls[0] + seq!['\n'] + join_lines(ls.skip(1))
    }
}

pub open spec fn or_empty(o: Option<Seq<char>>) -> Seq<char> {
    match o {
        Some(s) => s,
        None => Seq::empty(),
    }
}

/// What parsing a file split into `ls` lines yields.
pub open spec fn spec_parse_lines(ls: Seq<Seq<char>>) -> Result<DocView, ParseError> {
    if !(ls.len() >= 2 && is_delim(ls[0]) && delim_from(ls, 1) < ls.len()) {
        Err(ParseError::NoFrontMatter)
    } else {
        let k = delim_from(ls, 1);
        let block = ls.subrange(1, k);
        if scalar_of(block, key_title()) is None || or_empty(scalar_of(block, key_title())).len()
            == 0 {
            Err(ParseError::MissingField(FieldName::Title))
        } else if scalar_of(block, key_date()) is None || or_empty(
            scalar_of(block, key_date()),
        ).len() == 0 {
            Err(ParseError::MissingField(FieldName::Date))
        } else if tags_of(block) is None {
            Err(ParseError::MissingField(FieldName::Tags))
        } else if tags_bad(block) {
            Err(ParseError::BadTags)
        } else {
            Ok(
                DocView {
                    filename: or_empty(scalar_of(block, key_filename())),
                    full_path: Seq::empty(),
                    author: or_empty(scalar_of(block, key_author())),
                    date: or_empty(scalar_of(block, key_date())),
                    tags: tags_of(block).unwrap(),
                    title: or_empty(scalar_of(block, key_title())),
                    body: join_lines(ls.subrange(k + 1, ls.len() as int)),
                },
            )
        }
    }
}

/// What parsing a raw file text yields.
pub open spec fn spec_parse(text: Seq<char>) -> Result<DocView, ParseError> {
    spec_parse_lines(spec_lines_from(text, 0))
}

pub open spec fn lines_view(v: Seq<Vec<char>>) -> Seq<Seq<char>> {
    Seq::new(v.len(), |i: int| v[i]@)
}

pub open spec fn strs_view(v: Seq<String>) -> Seq<Seq<char>> {
    Seq::new(v.len(), |i: int| v[i]@)
}

fn is_quoted_vec(v: &Vec<char>) -> (r: bool)
    ensures
        r == is_quoted(v@),
{
    v.len() >= 2 && ((v[0] == '"' && v[v.len() - 1] == '"') || (v[0] == '\'' && v[v.len() - 1]
        == '\''))
}

/// `v` without one surrounding pair of quotes, as `spec_unquote` gives it.
fn unquote_vec(v: Vec<char>) -> (r: Vec<char>)
    ensures
        r@ =~= spec_unquote(v@),
{
    if is_quoted_vec(&v) {
        copy_range(&v, 1, v.len() - 1)
    } else {
        v
    }
}

pub proof fn lemma_strs_view_push(s: Seq<String>, x: String)
    ensures
        strs_view(s.push(x)) =~= strs_view(s).push(x@),
{
    assert forall|m: int| 0 <= m < s.len() + 1 implies strs_view(s.push(x))[m] == strs_view(
        s,
    ).push(x@)[m] by {
        if m < s.len() {
            assert(s.push(x)[m] == s[m]);
        } else {
            assert(s.push(x)[m] == x);
        }
    }
}

fn copy_range(l: &Vec<char>, a: usize, b: usize) -> (r: Vec<char>)
    requires
        a <= b <= l.len(),
    ensures
        r@ =~= l@.subrange(a as int, b as int),
{
    let mut out: Vec<char> = Vec::new();
    let mut k: usize = a;
    while k < b
        invariant
            a <= k <= b <= l.len(),
            out@ =~= l@.subrange(a as int, k as int),
        decreases b - k,
    {
        out.push(l[k]);
        k = k + 1;
    }
    out
}

/// Splits `text` on '\n' into its lines, as `spec_lines_from` gives them.
pub fn split_lines(text: &Vec<char>) -> (r: Vec<Vec<char>>)
    ensures
        lines_view(r@) =~= spec_lines_from(text@, 0),
{
    let mut out: Vec<Vec<char>> = Vec::new();
    let mut i: usize = 0;
    while i < text.len()
        invariant
            0 <= i <= text.len(),
            lines_view(out@) + spec_lines_from(text@, i as int) =~= spec_lines_from(text@, 0),
        decreases text.len() - i,
    {
        let ghost start = i as int;
        let mut j: usize = i;
        while j < text.len() && text[j] != '\n'
            invariant
                i <= j <= text.len(),
                first_nl(text@, i as int) == first_nl(text@, j as int),
            decreases text.len() - j,
        {
            j = j + 1;
        }
        assert(first_nl(text@, i as int) == j as int);
        let line: Vec<char> = copy_range(text, i, j);
        out.push(line);
        if j < text.len() {
            i = j + 1;
        } else {
            i = j;
        }
        proof {
            assert(lines_view(out@) =~= lines_view(out@.drop_last()).push(line@));
            assert(lines_view(out@) + spec_lines_from(text@, i as int) =~= spec_lines_from(
                text@,
                0,
            ));
        }
    }
    out
}

fn is_delim_line(l: &Vec<char>) -> (r: bool)
    ensures
        r == is_delim(l@),
{
    let bare: bool = l.len() == 3 && l[0] == '-' && l[1] == '-' && l[2] == '-';
    let crlf: bool = l.len() == 4 && l[0] == '-' && l[1] == '-' && l[2] == '-' && l[3] == '\r';
    proof {
        if bare {
            assert(l@ =~= seq!['-', '-', '-']);
        }
        if crlf {
            assert(l@ =~= seq!['-', '-', '-', '\r']);
        }
        if !bare && !crlf && is_delim(l@) {
            if l@ =~= seq!['-', '-', '-'] {
                assert(l@.len() == 3 && l@[0] == '-' && l@[1] == '-' && l@[2] == '-');
            } else {
                assert(l@.len() == 4 && l@[0] == '-' && l@[1] == '-' && l@[2] == '-' && l@[3]
                    == '\r');
            }
        }
    }
    bare || crlf
}

fn starts_with_exec(l: &Vec<char>, p: &Vec<char>) -> (r: bool)
    ensures
        r == starts_with(l@, p@),
{
    if l.len() < p.len() {
        return false;
    }
    let mut k: usize = 0;
    while k < p.len()
        invariant
            0 <= k <= p.len() <= l.len(),
            forall|j: int| 0 <= j < k ==> l@[j] == p@[j],
        decreases p.len() - k,
    {
        if l[k] != p[k] {
            proof {
                if starts_with(l@, p@) {
                    assert(l@.take(p@.len() as int)[k as int] == p@[k as int]);
                }
            }
            return false;
        }
        k = k + 1;
    }
    proof {
        assert(l@.take(p@.len() as int) =~= p@);
    }
    true
}

pub proof fn lemma_trim_front_at(s: Seq<char>, a: int)
    requires
        0 <= a <= s.len(),
        forall|j: int| 0 <= j < a ==> spec_is_space(#[trigger] s[j]),
        a == s.len() || !spec_is_space(s[a]),
    ensures
        trim_front(s) =~= s.skip(a),
    decreases a,
{
    if a > 0 {
        assert(spec_is_space(s[0]));
        lemma_trim_front_at(s.skip(1), a - 1);
        assert(s.skip(1).skip(a - 1) =~= s.skip(a));
    } else {
        assert(s.skip(0) =~= s);
    }
}

pub proof fn lemma_trim_back_at(s: Seq<char>, b: int)
    requires
        0 <= b <= s.len(),
        forall|j: int| b <= j < s.len() ==> spec_is_space(#[trigger] s[j]),
        b == 0 || !spec_is_space(s[b - 1]),
    ensures
        trim_back(s) =~= s.take(b),
    decreases s.len(),
{
    if s.len() > 0 && spec_is_space(s[s.len() - 1]) {
        assert(b < s.len());
        lemma_trim_back_at(s.take(s.len() - 1), b);
        assert(s.take(s.len() - 1).take(b) =~= s.take(b));
    } else {
        assert(s.take(s.len() as int) =~= s);
    }
}

/// The trimmed tail of `l` from position `from`, as `spec_trim` gives it.
fn trim_chars(l: &Vec<char>, from: usize) -> (r: Vec<char>)
    requires
        from <= l.len(),
    ensures
        r@ =~= spec_trim(l@.skip(from as int)),
{
    let mut a: usize = from;
    while a < l.len() && (l[a] == ' ' || l[a] == '\t' || l[a] == '\r')
        invariant
            from <= a <= l.len(),
            forall|j: int| from <= j < a ==> spec_is_space(#[trigger] l@[j]),
        decreases l.len() - a,
    {
        a = a + 1;
    }
    let mut b: usize = l.len();
    while b > a && (l[b - 1] == ' ' || l[b - 1] == '\t' || l[b - 1] == '\r')
        invariant
            a <= b <= l.len(),
            forall|j: int| b <= j < l.len() ==> spec_is_space(#[trigger] l@[j]),
        decreases b,
    {
        b = b - 1;
    }
    let r: Vec<char> = copy_range(l, a, b);
    proof {
        let t = l@.skip(from as int);
        lemma_trim_front_at(t, a - from);
        let u = t.skip(a - from);
        assert(u =~= l@.skip(a as int));
        if b == a {
            lemma_trim_back_at(u, 0);
        } else {
            lemma_trim_back_at(u, b - a);
        }
        assert(u.take(b - a) =~= l@.subrange(a as int, b as int));
    }
    r
}

/// First block line opening with `p`, as `key_at` gives it.
fn find_key(block: &Vec<Vec<char>>, p: &Vec<char>) -> (r: usize)
    ensures
        r as int == key_at(lines_view(block@), p@, 0),
        r <= block.len(),
{
    let mut i: usize = 0;
    while i < block.len()
        invariant
            0 <= i <= block.len(),
            key_at(lines_view(block@), p@, 0) == key_at(lines_view(block@), p@, i as int),
        decreases block.len() - i,
    {
        if starts_with_exec(&block[i], p) {
            proof {
                assert(starts_with(lines_view(block@)[i as int], p@));
            }
            return i;
        }
        proof {
            assert(!starts_with(lines_view(block@)[i as int], p@));
        }
        i = i + 1;
    }
    i
}

/// The trimmed value of the first `p` line, as `scalar_of` gives it.
fn get_scalar(block: &Vec<Vec<char>>, p: &Vec<char>) -> (r: Option<Vec<char>>)
    ensures
        r is Some <==> scalar_of(lines_view(block@), p@) is Some,
        r matches Some(v) ==> scalar_of(lines_view(block@), p@) == Some(v@),
{
    let i: usize = find_key(block, p);
    if i < block.len() {
        proof {
            lemma_key_at_props(lines_view(block@), p@, 0);
            assert(starts_with(lines_view(block@)[i as int], p@));
            assert(lines_view(block@)[i as int] == block@[i as int]@);
        }
        let v: Vec<char> = unquote_vec(trim_chars(&block[i], p.len()));
        Some(v)
    } else {
        None
    }
}

/// Whether every element of a flow text is one this format reads.
fn flow_ok_check(inner: &Vec<char>) -> (r: bool)
    ensures
        r == flow_ok_from(inner@, 0),
{
    let ghost iv = inner@;
    let mut j: usize = 0;
    while j < inner.len()
        invariant
            0 <= j <= inner.len(),
            iv == inner@,
            flow_ok_from(iv, 0) == flow_ok_from(iv, j as int),
        decreases inner.len() - j,
    {
        let mut e: usize = j;
        while e < inner.len() && inner[e] != ','
            invariant
                j <= e <= inner.len(),
                iv == inner@,
                next_comma(iv, j as int) == next_comma(iv, e as int),
            decreases inner.len() - e,
        {
            e = e + 1;
        }
        proof {
            assert(next_comma(iv, j as int) == e as int);
        }
        let raw: Vec<char> = copy_range(inner, j, e);
        let tr: Vec<char> = trim_chars(&raw, 0);
        proof {
            assert(raw@.skip(0) =~= raw@);
            assert(tr@ =~= spec_trim(iv.subrange(j as int, e as int)));
        }
        let ok: bool = is_quoted_vec(&tr) || (tr.len() > 0 && tr[0] != '[' && tr[0] != '{');
        proof {
            assert(ok == plain_ok(spec_trim(iv.subrange(j as int, e as int))));
        }
        if !ok {
            return false;
        }
        if e < inner.len() {
            j = e + 1;
        } else {
            j = e;
        }
    }
    true
}

/// Reads the tag list at the first "tags" line of the block: a scalar
/// value (quotes stripped) becomes a one-element list, a "[...]" flow
/// sequence is read element by element, and an item list is taken in
/// order.  The value must not be one `tags_bad_at` rejects.
fn string_or_list_string(block: &Vec<Vec<char>>, idx: usize) -> (r: Vec<String>)
    requires
        idx < block.len(),
        starts_with(lines_view(block@)[idx as int], key_tags()),
        !tags_bad_at(lines_view(block@), idx as int),
    ensures
        Some(strs_view(r@)) == tags_of_at(lines_view(block@), idx as int),
{
    let ghost bv = lines_view(block@);
    proof {
        assert(bv[idx as int] == block@[idx as int]@);
    }
    let rest: Vec<char> = trim_chars(&block[idx], 5);
    let mut out: Vec<String> = Vec::new();
    if rest.len() > 0 {
        let ghost v = spec_trim(bv[idx as int].skip(5));
        proof {
            assert(rest@ =~= v);
        }
        if is_quoted_vec(&rest) {
            let uq: Vec<char> = unquote_vec(rest);
            out.push(string_of_chars(&uq));
            proof {
                assert(strs_view(out@) =~= seq![spec_unquote(v)]);
            }
            return out;
        }
        if rest[0] == '[' {
            // a flow sequence: its elements, in order, quotes stripped
            let sub: Vec<char> = copy_range(&rest, 1, rest.len() - 1);
            let inner: Vec<char> = trim_chars(&sub, 0);
            let ghost iv = spec_trim(v.subrange(1, v.len() - 1));
            proof {
                assert(sub@ =~= v.subrange(1, v.len() - 1));
                assert(sub@.skip(0) =~= sub@);
                assert(inner@ =~= iv);
            }
            let mut j: usize = 0;
            proof {
                assert(strs_view(out@) + unquoted_all(flow_elems(iv, 0)) =~= unquoted_all(
                    flow_elems(iv, 0),
                ));
            }
            while j < inner.len()
                invariant
                    0 <= j <= inner.len(),
                    inner@ == iv,
                    strs_view(out@) + unquoted_all(flow_elems(iv, j as int)) =~= unquoted_all(
                        flow_elems(iv, 0),
                    ),
                decreases inner.len() - j,
            {
                let mut e: usize = j;
                while e < inner.len() && inner[e] != ','
                    invariant
                        j <= e <= inner.len(),
                        inner@ == iv,
                        next_comma(iv, j as int) == next_comma(iv, e as int),
                    decreases inner.len() - e,
                {
                    e = e + 1;
                }
                proof {
                    assert(next_comma(iv, j as int) == e as int);
                }
                let raw: Vec<char> = copy_range(&inner, j, e);
                let tr: Vec<char> = trim_chars(&raw, 0);
                proof {
                    assert(raw@ =~= iv.subrange(j as int, e as int));
                    assert(raw@.skip(0) =~= raw@);
                    assert(tr@ =~= spec_trim(iv.subrange(j as int, e as int)));
                }
                let elem: Vec<char> = unquote_vec(tr);
                let sv: String = string_of_chars(&elem);
                let ghost prev = out@;
                out.push(sv);
                proof {
                    assert(elem@ =~= spec_unquote(spec_trim(iv.subrange(j as int, e as int))));
                    lemma_strs_view_push(prev, sv);
                    let es = flow_elems(iv, j as int);
                    if e as int >= iv.len() {
                        assert(es =~= seq![spec_trim(iv.subrange(j as int, iv.len() as int))]);
                        assert(unquoted_all(es) =~= seq![elem@]);
                        assert(flow_elems(iv, iv.len() as int) =~= Seq::<Seq<char>>::empty());
                        assert(unquoted_all(flow_elems(iv, iv.len() as int)) =~= Seq::<
                            Seq<char>,
                        >::empty());
                        assert(strs_view(out@) + unquoted_all(flow_elems(iv, iv.len() as int))
                            =~= unquoted_all(flow_elems(iv, 0)));
                    } else {
                        let tail = flow_elems(iv, e + 1);
                        assert(es =~= seq![spec_trim(iv.subrange(j as int, e as int))] + tail);
                        assert(unquoted_all(es) =~= seq![elem@] + unquoted_all(tail)) by {
                            assert forall|m: int| 0 <= m < es.len() implies unquoted_all(es)[m]
                                == (seq![elem@] + unquoted_all(tail))[m] by {
                                if m > 0 {
                                    assert(es[m] == tail[m - 1]);
                                    assert(unquoted_all(tail)[m - 1] == spec_unquote(
                                        tail[m - 1],
                                    ));
                                }
                            }
                        }
                        assert(strs_view(out@) + unquoted_all(tail) =~= unquoted_all(
                            flow_elems(iv, 0),
                        ));
                    }
                }
                if e < inner.len() {
                    j = e + 1;
                } else {
                    j = e;
                }
            }
            proof {
                assert(flow_elems(iv, j as int) =~= Seq::<Seq<char>>::empty());
                assert(unquoted_all(flow_elems(iv, j as int)) =~= Seq::<Seq<char>>::empty());
                assert(strs_view(out@) =~= flow_values(iv));
            }
            return out;
        }
        out.push(string_of_chars(&rest));
        proof {
            assert(strs_view(out@) =~= seq![v]);
        }
        return out;
    }
    let ghost bv = lines_view(block@);
    let mut j: usize = idx + 1;
    let pfx: Vec<char> = vec!['-', ' '];
    proof {
        assert(pfx@ =~= item_prefix());
    }
    while j < block.len() && starts_with_exec(&block[j], &pfx)
        invariant
            idx + 1 <= j <= block.len(),
            pfx@ =~= item_prefix(),
            bv == lines_view(block@),
            items_end(bv, idx + 1) == items_end(bv, j as int),
            forall|t: int| idx + 1 <= t < j ==> starts_with(#[trigger] bv[t], item_prefix()),
            strs_view(out@) =~= item_values(bv, idx + 1, j as int),
        decreases block.len() - j,
    {
        proof {
            assert(bv[j as int] == block@[j as int]@);
            assert(starts_with(bv[j as int], item_prefix()));
        }
        let v0: Vec<char> = trim_chars(&block[j], 2);
        let v: Vec<char> = unquote_vec(v0);
        let sv: String = string_of_chars(&v);
        let ghost prev = out@;
        out.push(sv);
        proof {
            assert(v@ =~= spec_unquote(spec_trim(bv[j as int].skip(2))));
            assert(sv@ == v@);
            assert(out@ == prev.push(sv));
            assert(strs_view(prev) == item_values(bv, idx + 1, j as int));
            assert(strs_view(prev).len() == prev.len());
            assert(item_values(bv, idx + 1, j as int).len() == j - idx - 1);
            assert(prev.len() == j - idx - 1);
            assert(out@.len() == j - idx);
            assert(item_values(bv, idx + 1, j + 1).len() == j - idx);
            assert(strs_view(out@).len() == j - idx);
            assert(strs_view(out@)[j - idx - 1] == sv@);
            assert(item_values(bv, idx + 1, j + 1)[j - idx - 1] == spec_unquote(spec_trim(
                bv[j as int].skip(2),
            )));
            assert forall|m: int| 0 <= m < out@.len() implies strs_view(out@)[m] == item_values(
                bv,
                idx + 1,
                j + 1,
            )[m] by {
                if m < prev.len() {
                    assert(out@[m] == prev[m]);
                    assert(strs_view(prev)[m] == item_values(bv, idx + 1, j as int)[m]);
                } else {
                    assert(out@[m] == sv);
                }
            }
            assert(strs_view(out@) =~= item_values(bv, idx + 1, j + 1));
        }
        j = j + 1;
    }
    proof {
        assert(items_end(bv, j as int) == j as int);
        assert(strs_view(out@) =~= item_values(bv, idx + 1, items_end(bv, idx + 1)));
    }
    out
}

/// The tag list, given that line `i` is the first "tags" line (and, for a
/// flow value, that `tags_bad_at` does not hold of it).
pub open spec fn tags_of_at(ls: Seq<Seq<char>>, i: int) -> Option<Seq<Seq<char>>> {
    if i >= ls.len() {
        None
    } else {
        let v = spec_trim(ls[i].skip(5));
        if v.len() > 0 {
            if is_quoted(v) {
                Some(seq![spec_unquote(v)])
            } else if v[0] == '[' {
                Some(flow_values(spec_trim(v.subrange(1, v.len() - 1))))
            } else {
                Some(seq![v])
            }
        } else {
            Some(item_values(ls, i + 1, items_end(ls, i + 1)))
        }
    }
}

/// Parses a file already split into lines, as `spec_parse_lines` gives it.
pub fn parse_lines(lines: &Vec<Vec<char>>) -> (r: Result<TikaDocument, ParseError>)
    ensures
        r matches Ok(d) ==> spec_parse_lines(lines_view(lines@)) matches Ok(dv) && d@ =~= dv,
        r matches Err(e) ==> spec_parse_lines(lines_view(lines@)) == Err::<DocView,
            ParseError,
        >(e),
{
    let ghost lv = lines_view(lines@);
    if lines.len() < 2 || !is_delim_line(&lines[0]) {
        proof {
            assert(lines.len() >= 1 ==> lv[0] == lines@[0]@);
        }
        return Err(ParseError::NoFrontMatter);
    }
    let mut k: usize = 1;
    while k < lines.len() && !is_delim_line(&lines[k])
        invariant
            1 <= k <= lines.len(),
            lv == lines_view(lines@),
            delim_from(lv, 1) == delim_from(lv, k as int),
        decreases lines.len() - k,
    {
        proof {
            assert(lv[k as int] == lines@[k as int]@);
        }
        k = k + 1;
    }
    proof {
        assert(k < lines.len() ==> lv[k as int] == lines@[k as int]@);
        assert(delim_from(lv, 1) == k as int || (k == lines.len() && delim_from(lv, 1) == k
            as int));
    }
    if k >= lines.len() {
        return Err(ParseError::NoFrontMatter);
    }
    // the metadata block: lines 1 .. k
    let mut block: Vec<Vec<char>> = Vec::new();
    let mut t: usize = 1;
    while t < k
        invariant
            1 <= t <= k < lines.len(),
            lv == lines_view(lines@),
            lines_view(block@) =~= lv.subrange(1, t as int),
        decreases k - t,
    {
        let line: Vec<char> = copy_range(&lines[t], 0, lines[t].len());
        proof {
            assert(line@ =~= lines@[t as int]@);
        }
        let ghost prevb = block@;
        block.push(line);
        proof {
            assert(lv[t as int] == lines@[t as int]@);
            assert(block@ == prevb.push(line));
            assert(lines_view(prevb) == lv.subrange(1, t as int));
            assert(lines_view(prevb).len() == prevb.len());
            assert(lv.subrange(1, t as int).len() == t - 1);
            assert forall|m: int| 0 <= m < block@.len() implies lines_view(block@)[m]
                == lv.subrange(1, t + 1)[m] by {
                if m < prevb.len() {
                    assert(block@[m] == prevb[m]);
                    assert(lines_view(prevb)[m] == lv.subrange(1, t as int)[m]);
                } else {
                    assert(block@[m] == line);
                }
            }
            assert(lines_view(block@) =~= lv.subrange(1, t + 1));
        }
        t = t + 1;
    }
    let ghost bv = lines_view(block@);
    proof {
        assert(bv =~= lv.subrange(1, k as int));
    }
    let ptitle: Vec<char> = vec!['t', 'i', 't', 'l', 'e', ':'];
    let pdate: Vec<char> = vec!['d', 'a', 't', 'e', ':'];
    let ptags: Vec<char> = vec!['t', 'a', 'g', 's', ':'];
    let pauthor: Vec<char> = vec!['a', 'u', 't', 'h', 'o', 'r', ':'];
    let pfilename: Vec<char> = vec!['f', 'i', 'l', 'e', 'n', 'a', 'm', 'e', ':'];
    proof {
        assert(ptitle@ =~= key_title());
        assert(pdate@ =~= key_date());
        assert(ptags@ =~= key_tags());
        assert(pauthor@ =~= key_author());
        assert(pfilename@ =~= key_filename());
    }
    let title: Option<Vec<char>> = get_scalar(&block, &ptitle);
    let title: Vec<char> = match title {
        Some(v) => v,
        None => {
            return Err(ParseError::MissingField(FieldName::Title));
        },
    };
    if title.len() == 0 {
        return Err(ParseError::MissingField(FieldName::Title));
    }
    let date: Option<Vec<char>> = get_scalar(&block, &pdate);
    let date: Vec<char> = match date {
        Some(v) => v,
        None => {
            return Err(ParseError::MissingField(FieldName::Date));
        },
    };
    if date.len() == 0 {
        return Err(ParseError::MissingField(FieldName::Date));
    }
    let tags_idx: usize = find_key(&block, &ptags);
    if tags_idx >= block.len() {
        proof {
            assert(scalar_of(bv, key_tags()) is None);
            assert(tags_of(bv) is None);
        }
        return Err(ParseError::MissingField(FieldName::Tags));
    }
    proof {
        lemma_key_at_props(bv, key_tags(), 0);
        assert(starts_with(bv[tags_idx as int], key_tags()));
    }
    // a tags value this format does not read fails; nothing is coerced
    let trest: Vec<char> = trim_chars(&block[tags_idx], 5);
    proof {
        assert(trest@ =~= spec_trim(bv[tags_idx as int].skip(5)));
    }
    if trest.len() > 0 {
        if is_quoted_vec(&trest) {
            // a quoted scalar is always read
        } else if trest[0] == '[' {
            let bad: bool = if trest[trest.len() - 1] != ']' {
                true
            } else {
                let sub: Vec<char> = copy_range(&trest, 1, trest.len() - 1);
                let inner: Vec<char> = trim_chars(&sub, 0);
                proof {
                    assert(sub@.skip(0) =~= sub@);
                    assert(inner@ =~= spec_trim(
                        spec_trim(bv[tags_idx as int].skip(5)).subrange(
                            1,
                            spec_trim(bv[tags_idx as int].skip(5)).len() - 1,
                        ),
                    ));
                }
                if inner.len() == 0 {
                    false
                } else {
                    !flow_ok_check(&inner)
                }
            };
            if bad {
                proof {
                    assert(tags_bad_at(bv, tags_idx as int));
                    assert(tags_bad(bv));
                }
                return Err(ParseError::BadTags);
            }
        } else if trest[0] == '{' {
            proof {
                assert(tags_bad_at(bv, tags_idx as int));
                assert(tags_bad(bv));
            }
            return Err(ParseError::BadTags);
        }
    } else {
        if tags_idx + 1 < block.len() {
            let nxt: &Vec<char> = &block[tags_idx + 1];
            proof {
                assert(bv[tags_idx + 1] == block@[tags_idx + 1]@);
            }
            if nxt.len() > 0 && (nxt[0] == ' ' || nxt[0] == '\t') {
                proof {
                    assert(tags_bad_at(bv, tags_idx as int));
                    assert(tags_bad(bv));
                }
                return Err(ParseError::BadTags);
            }
        }
    }
    proof {
        assert(!tags_bad_at(bv, tags_idx as int));
        assert(!tags_bad(bv));
    }
    let tags: Vec<String> = string_or_list_string(&block, tags_idx);
    proof {
        assert(tags_of(bv) == tags_of_at(bv, tags_idx as int));
    }
    let author: String = match get_scalar(&block, &pauthor) {
        Some(v) => string_of_chars(&v),
        None => String::new(),
    };
    let filename: String = match get_scalar(&block, &pfilename) {
        Some(v) => string_of_chars(&v),
        None => String::new(),
    };
    // the body: lines k + 1 .. end, joined back with '\n'
    let mut body: Vec<char> = Vec::new();
    let mut t2: usize = k + 1;
    while t2 < lines.len()
        invariant
            k + 1 <= t2 <= lines.len(),
            lv == lines_view(lines@),
            k < lines.len(),
            body@ =~= join_lines(lv.subrange(k + 1, t2 as int)),
        decreases lines.len() - t2,
    {
        if t2 > k + 1 {
            body.push('\n');
        }
        let mut c: usize = 0;
        while c < lines[t2].len()
            invariant
                0 <= c <= lines@[t2 as int]@.len(),
                k + 1 <= t2 < lines.len(),
                lv == lines_view(lines@),
                body@ =~= (if t2 > k + 1 {
                    join_lines(lv.subrange(k + 1, t2 as int)) + seq!['\n']
                } else {
                    join_lines(lv.subrange(k + 1, t2 as int))
                }) + lv[t2 as int].take(c as int),
            decreases lines@[t2 as int]@.len() - c,
        {
            body.push(lines[t2][c]);
            proof {
                assert(lv[t2 as int] == lines@[t2 as int]@);
                assert(lv[t2 as int].take(c + 1) =~= lv[t2 as int].take(c as int).push(
                    lv[t2 as int][c as int],
                ));
            }
            c = c + 1;
        }
        proof {
            assert(lv[t2 as int].take(lv[t2 as int].len() as int) =~= lv[t2 as int]);
            lemma_join_push(lv.subrange(k + 1, t2 as int), lv[t2 as int]);
            assert(lv.subrange(k + 1, t2 + 1) =~= lv.subrange(k + 1, t2 as int).push(
                lv[t2 as int],
            ));
        }
        t2 = t2 + 1;
    }
    let doc = TikaDocument {
        filename,
        full_path: String::new(),
        author,
        date: string_of_chars(&date),
        tags,
        title: string_of_chars(&title),
        body: string_of_chars(&body),
    };
    proof {
        let parsed = spec_parse_lines(lv);
        assert(lv.subrange(k + 1, lines@.len() as int) =~= lv.subrange(
            k + 1,
            lines.len() as int,
        ));
        assert(parsed matches Ok(dv) && doc@ =~= dv);
    }
    Ok(doc)
}

pub proof fn lemma_join_push(ls: Seq<Seq<char>>, l: Seq<char>)
    ensures
        join_lines(ls.push(l)) =~= if ls.len() == 0 {
            l
        } else {
            join_lines(ls) + seq!['\n'] + l
        },
    decreases ls.len(),
{
    if ls.len() == 0 {
        assert(ls.push(l).len() == 1);
        assert(join_lines(ls.push(l)) =~= ls.push(l)[0]);
    } else {
        assert(ls.push(l).skip(1) =~= ls.skip(1).push(l));
        lemma_join_push(ls.skip(1), l);
        if ls.len() == 1 {
            assert(join_lines(ls) =~= ls[0]);
        }
    }
}

/// Parses a raw file text, as `spec_parse` gives it: the front matter block
/// becomes the metadata fields and the rest becomes the body.
pub fn parse(text: &Vec<char>) -> (r: Result<TikaDocument, ParseError>)
    ensures
        r matches Ok(d) ==> spec_parse(text@) matches Ok(dv) && d@ =~= dv,
        r matches Err(e) ==> spec_parse(text@) == Err::<DocView, ParseError>(e),
{
    let lines: Vec<Vec<char>> = split_lines(text);
    parse_lines(&lines)
}


pub proof fn lemma_items_end_bounds(ls: Seq<Seq<char>>, i: int)
    ensures
        i <= items_end(ls, i),
        i <= ls.len() ==> items_end(ls, i) <= ls.len(),
    decreases ls.len() - i,
{
    if i < ls.len() && starts_with(ls[i], item_prefix()) {
        lemma_items_end_bounds(ls, i + 1);
    }
}

/// The scalar-or-sequence decode, scalar side: a tags line carrying one
/// scalar value decodes to the one-element list holding exactly that value
/// (without its quotes, where it has them).
pub proof fn lemma_scalar_tags_wrap(ls: Seq<Seq<char>>, i: int)
    requires
        0 <= i < ls.len(),
        ({
            let v = spec_trim(ls[i].skip(5));
            v.len() > 0 && (is_quoted(v) || (v[0] != '[' && v[0] != '{'))
        }),
    ensures
        tags_of_at(ls, i) == Some(seq![spec_unquote(spec_trim(ls[i].skip(5)))]),
{
}

/// The scalar-or-sequence decode, item-list side: an empty tags value
/// followed by "- item" lines decodes to exactly those items, in their
/// order, duplicates kept — element k is the k-th item line's value.
pub proof fn lemma_list_tags_exact(ls: Seq<Seq<char>>, i: int)
    requires
        0 <= i < ls.len(),
        spec_trim(ls[i].skip(5)).len() == 0,
    ensures
        ({
            let e = items_end(ls, i + 1);
            &&& tags_of_at(ls, i) matches Some(ts) && ts.len() == e - (i + 1) && forall|k: int|
                0 <= k < e - (i + 1) ==> ts[k] == spec_unquote(
                    spec_trim(#[trigger] ls[i + 1 + k].skip(2)),
                )
        }),
{
    lemma_items_end_bounds(ls, i + 1);
}

/// The scalar-or-sequence decode, flow side: a well-formed "[...]" value
/// decodes to exactly its comma-separated elements, in their order,
/// duplicates kept — element k is the k-th element's value without quotes.
pub proof fn lemma_flow_tags_exact(ls: Seq<Seq<char>>, i: int)
    requires
        0 <= i < ls.len(),
        ({
            let v = spec_trim(ls[i].skip(5));
            v.len() > 0 && !is_quoted(v) && v[0] == '['
        }),
    ensures
        ({
            let inner = spec_trim(
                spec_trim(ls[i].skip(5)).subrange(1, spec_trim(ls[i].skip(5)).len() - 1),
            );
            &&& tags_of_at(ls, i) matches Some(ts) && ts.len() == flow_elems(inner, 0).len()
                && forall|k: int|
                0 <= k < flow_elems(inner, 0).len() ==> ts[k] == spec_unquote(
                    #[trigger] flow_elems(inner, 0)[k],
                )
        }),
{
}

} // verus!
