use vstd::prelude::*;

use crate::dates::{all_digits, digit_char, digit_val, spec_is_digit};
use vstd::arithmetic::div_mod::{lemma_mod_breakdown, lemma_small_mod};
use crate::front_matter::{spec_lines_from, split_lines};
use crate::text::{chars_of, string_of_chars};

verus! {

// The checksum store is the persisted map from a file's full path to the
// Adler-32 word its content had when it was last indexed.  It is loaded once
// at the start of a run, updated in memory, and written back wholesale after
// the index commit.  On disk it is a flat text table, one entry per line:
// ten zero-padded checksum digits, a tab, then the path.  A path holding a
// newline cannot be written on one line; such entries are left out of the
// rendering.

/// The entries read as a map: a later entry for the same path wins.
pub open spec fn pairs_map(s: Seq<(String, u32)>) -> Map<Seq<char>, u32>
    decreases s.len(),
{
    if s.len() == 0 {
        Map::empty()
    } else {
        pairs_map(s.drop_last()).insert(s.last().0@, s.last().1)
    }
}

/// Persisted path-to-checksum table, the single source of truth for "has
/// this file changed since it was last indexed".
pub struct ChecksumStore {
    entries: Vec<(String, u32)>,
}

impl View for ChecksumStore {
    type V = Map<Seq<char>, u32>;

    closed spec fn view(&self) -> Map<Seq<char>, u32> {
        pairs_map(self.entries@)
    }
}

impl ChecksumStore {
    /// The empty store, as a missing or empty file yields it.
    pub fn new() -> (r: ChecksumStore)
        ensures
            r@ == Map::<Seq<char>, u32>::empty(),
    {
        ChecksumStore { entries: Vec::new() }
    }

    /// The checksum recorded for `path`, if any.
    pub fn get(&self, path: &String) -> (r: Option<u32>)
        ensures
            r is Some <==> self@.contains_key(path@),
            r matches Some(c) ==> self@[path@] == c,
    {
        let ghost s = self.entries@;
        proof {
            assert(s.take(s.len() as int) =~= s);
        }
        let mut i: usize = self.entries.len();
        while i > 0
            invariant
                0 <= i <= s.len(),
                s == self.entries@,
                pairs_map(s).contains_key(path@) == pairs_map(s.take(i as int)).contains_key(
                    path@,
                ),
                pairs_map(s).contains_key(path@) ==> pairs_map(s)[path@] == pairs_map(
                    s.take(i as int),
                )[path@],
            decreases i,
        {
            i = i - 1;
            proof {
                assert(s.take(i + 1).drop_last() =~= s.take(i as int));
                assert(s.take(i + 1).last() == s[i as int]);
            }
            if self.entries[i].0 == *path {
                return Some(self.entries[i].1);
            }
        }
        proof {
            assert(s.take(0) =~= Seq::<(String, u32)>::empty());
        }
        None
    }

    /// Records `sum` for `path`, replacing any earlier record.
    pub fn set(&mut self, path: String, sum: u32)
        ensures
            final(self)@ == old(self)@.insert(path@, sum),
    {
        let ghost k = path@;
        self.entries.push((path, sum));
        proof {
            assert(self.entries@.drop_last() =~= old(self).entries@);
            assert(self.entries@.last().0@ == k);
        }
    }
}

/// The ten decimal digits of `v`, zero padded.
pub open spec fn digits10(v: int) -> Seq<char> {
    seq![
        digit_char(v / 1000000000 % 10),
        digit_char(v / 100000000 % 10),
        digit_char(v / 10000000 % 10),
        digit_char(v / 1000000 % 10),
        digit_char(v / 100000 % 10),
        digit_char(v / 10000 % 10),
        digit_char(v / 1000 % 10),
        digit_char(v / 100 % 10),
        digit_char(v / 10 % 10),
        digit_char(v % 10),
    ]
}

/// The value of the ten digits opening `l`.
pub open spec fn digits10_val(l: Seq<char>) -> int {
    digit_val(l[0]) * 1000000000 + digit_val(l[1]) * 100000000 + digit_val(l[2]) * 10000000
        + digit_val(l[3]) * 1000000 + digit_val(l[4]) * 100000 + digit_val(l[5]) * 10000
        + digit_val(l[6]) * 1000 + digit_val(l[7]) * 100 + digit_val(l[8]) * 10 + digit_val(l[9])
}

/// The entry a stored line denotes: ten digits, a tab, then the path.  A
/// line of any other shape (or a value over 32 bits) denotes nothing.
pub open spec fn line_entry(l: Seq<char>) -> Option<(Seq<char>, int)> {
    if l.len() >= 11 && all_digits(l, 0, 10) && l[10] == '\t' && digits10_val(l) <= 0xFFFFFFFF {
        Some((l.skip(11), digits10_val(l)))
    } else {
        None
    }
}

/// The map the lines from `i` on denote, over what `m` already holds.
pub open spec fn parse_acc(ls: Seq<Seq<char>>, i: int, m: Map<Seq<char>, u32>) -> Map<
    Seq<char>,
    u32,
>
    decreases ls.len() - i,
{
    if i < 0 || i >= ls.len() {
        m
    } else {
        match line_entry(ls[i]) {
            Some(e) => parse_acc(ls, i + 1, m.insert(e.0, e.1 as u32)),
            None => parse_acc(ls, i + 1, m),
        }
    }
}

/// The map a stored text denotes.
pub open spec fn spec_parse_store(text: Seq<char>) -> Map<Seq<char>, u32> {
    parse_acc(spec_lines_from(text, 0), 0, Map::empty())
}

/// Reads a persisted table, as `spec_parse_store` gives it; lines of the
/// wrong shape are passed over.
pub fn parse_store(text: &Vec<char>) -> (r: ChecksumStore)
    ensures
        r@ == spec_parse_store(text@),
{
    let lines: Vec<Vec<char>> = split_lines(text);
    let ghost lv = crate::front_matter::lines_view(lines@);
    let mut st: ChecksumStore = ChecksumStore::new();
    let mut i: usize = 0;
    while i < lines.len()
        invariant
            0 <= i <= lines.len(),
            lv == crate::front_matter::lines_view(lines@),
            lv =~= spec_lines_from(text@, 0),
            parse_acc(lv, i as int, st@) == parse_acc(lv, 0, Map::empty()),
        decreases lines.len() - i,
    {
        proof {
            assert(lv[i as int] == lines@[i as int]@);
        }
        let line: &Vec<char> = &lines[i];
        if line.len() >= 11 && digits_ok(line) {
            if line[10] == '\t' {
                let v: u64 = read10(line);
                if v <= 0xFFFFFFFF {
                    let path_chars: Vec<char> = copy_tail(line, 11);
                    let path: String = string_of_chars(&path_chars);
                    proof {
                        assert(line_entry(lv[i as int]) == Some(
                            (lv[i as int].skip(11), v as int),
                        ));
                    }
                    st.set(path, v as u32);
                } else {
                    proof {
                        assert(line_entry(lv[i as int]) is None);
                    }
                }
            } else {
                proof {
                    assert(line_entry(lv[i as int]) is None);
                }
            }
        } else {
            proof {
                assert(line_entry(lv[i as int]) is None);
            }
        }
        i = i + 1;
    }
    st
}

fn digits_ok(l: &Vec<char>) -> (r: bool)
    requires
        l.len() >= 10,
    ensures
        r == all_digits(l@, 0, 10),
{
    let mut k: usize = 0;
    while k < 10
        invariant
            0 <= k <= 10,
            l.len() >= 10,
            forall|j: int| 0 <= j < k ==> spec_is_digit(#[trigger] l@[j]),
        decreases 10 - k,
    {
        let c: char = l[k];
        if !('0' <= c && c <= '9') {
            return false;
        }
        k = k + 1;
    }
    true
}

fn read10(l: &Vec<char>) -> (r: u64)
    requires
        l.len() >= 10,
        all_digits(l@, 0, 10),
    ensures
        r == digits10_val(l@),
        r <= 9999999999,
{
    let a0: u64 = l[0] as u64 - '0' as u64;
    let a1: u64 = l[1] as u64 - '0' as u64;
    let a2: u64 = l[2] as u64 - '0' as u64;
    let a3: u64 = l[3] as u64 - '0' as u64;
    let a4: u64 = l[4] as u64 - '0' as u64;
    let a5: u64 = l[5] as u64 - '0' as u64;
    let a6: u64 = l[6] as u64 - '0' as u64;
    let a7: u64 = l[7] as u64 - '0' as u64;
    let a8: u64 = l[8] as u64 - '0' as u64;
    let a9: u64 = l[9] as u64 - '0' as u64;
    a0 * 1000000000 + a1 * 100000000 + a2 * 10000000 + a3 * 1000000 + a4 * 100000 + a5 * 10000
        + a6 * 1000 + a7 * 100 + a8 * 10 + a9
}

pub fn copy_tail(l: &Vec<char>, from: usize) -> (r: Vec<char>)
    requires
        from <= l.len(),
    ensures
        r@ =~= l@.skip(from as int),
{
    let mut out: Vec<char> = Vec::new();
    let mut k: usize = from;
    while k < l.len()
        invariant
            from <= k <= l.len(),
            out@ =~= l@.subrange(from as int, k as int),
        decreases l.len() - k,
    {
        out.push(l[k]);
        k = k + 1;
    }
    out
}


/// No later entry shadows entry `j`.
pub open spec fn live(s: Seq<(String, u32)>, j: int) -> bool {
    forall|t: int| j < t < s.len() ==> (#[trigger] s[t]).0@ != s[j].0@
}

/// A key the flat format can carry on one line.
pub open spec fn clean_key(k: Seq<char>) -> bool {
    forall|x: int| 0 <= x < k.len() ==> k[x] != '\n'
}

/// A live entry carries the value the map gives its key.
pub proof fn lemma_live_value(s: Seq<(String, u32)>, j: int)
    requires
        0 <= j < s.len(),
        live(s, j),
    ensures
        pairs_map(s).contains_key(s[j].0@),
        pairs_map(s)[s[j].0@] == s[j].1,
    decreases s.len(),
{
    if j < s.len() - 1 {
        assert(s.drop_last()[j] == s[j]);
        assert(live(s.drop_last(), j)) by {
            assert(forall|t: int|
                j < t < s.len() - 1 ==> (#[trigger] s.drop_last()[t]).0@ == s[t].0@);
        }
        lemma_live_value(s.drop_last(), j);
        assert(s.last().0@ != s[j].0@);
    }
}

/// Every key of the map has a live entry carrying its value.
pub proof fn lemma_map_last_occurrence(s: Seq<(String, u32)>, k: Seq<char>)
    requires
        pairs_map(s).contains_key(k),
    ensures
        exists|j: int|
            0 <= j < s.len() && (#[trigger] s[j]).0@ == k && live(s, j) && s[j].1 == pairs_map(
                s,
            )[k],
    decreases s.len(),
{
    if s.len() > 0 {
        if s.last().0@ == k {
            assert(s[s.len() - 1].0@ == k && live(s, s.len() - 1));
        } else {
            lemma_map_last_occurrence(s.drop_last(), k);
            let j = choose|j: int|
                0 <= j < s.drop_last().len() && (#[trigger] s.drop_last()[j]).0@ == k && live(
                    s.drop_last(),
                    j,
                ) && s.drop_last()[j].1 == pairs_map(s.drop_last())[k];
            assert(s[j] == s.drop_last()[j]);
            assert(live(s, j)) by {
                assert(forall|t: int|
                    j < t < s.len() - 1 ==> (#[trigger] s[t]).0@ == s.drop_last()[t].0@);
            }
            assert(s[j].0@ == k && live(s, j) && s[j].1 == pairs_map(s)[k]);
        }
    }
}

pub proof fn lemma_first_nl_run(u: Seq<char>, i: int, j: int)
    requires
        0 <= i <= j <= u.len(),
        forall|x: int| i <= x < j ==> u[x] != '\n',
        j == u.len() || u[j] == '\n',
    ensures
        first_nl_of(u, i) == j,
    decreases j - i,
{
    if i < j {
        lemma_first_nl_run(u, i + 1, j);
    }
}

/// `first_nl` under its own module name, for the lemmas here.
pub open spec fn first_nl_of(u: Seq<char>, i: int) -> int {
    crate::front_matter::first_nl(u, i)
}

/// Appending one clean '\n'-terminated line to a '\n'-terminated text adds
/// exactly one line to its split.
pub proof fn lemma_lines_append(t: Seq<char>, l: Seq<char>, i: int)
    requires
        0 <= i <= t.len(),
        clean_key(l),
        t.len() == 0 || t[t.len() - 1] == '\n',
    ensures
        spec_lines_from(t + l + seq!['\n'], i) =~= spec_lines_from(t, i).push(l),
    decreases t.len() - i,
{
    let u = t + l + seq!['\n'];
    if i >= t.len() {
        assert(i == t.len() || (i < t.len() && t.len() == 0)) by {}
        let e: int = t.len() + l.len() as int;
        assert(forall|x: int| i <= x < e ==> u[x] != '\n');
        lemma_first_nl_run(u, i, e);
        assert(u[e] == '\n');
        assert(e < u.len());
        assert(u.subrange(i, e) =~= l);
        assert(spec_lines_from(u, e + 1) =~= Seq::<Seq<char>>::empty());
        assert(spec_lines_from(t, i) =~= Seq::<Seq<char>>::empty());
        assert(spec_lines_from(u, i) =~= seq![l]);
    } else {
        let e = first_nl_of(t, i);
        crate::front_matter::lemma_first_nl_bounds(t, i);
        lemma_first_nl_props(t, i);
        assert(e < t.len()) by {
            if e == t.len() {
                assert(t[t.len() - 1] != '\n');
            }
        }
        assert(t[e] == '\n');
        lemma_first_nl_run(u, i, e);
        assert(u.subrange(i, e) =~= t.subrange(i, e));
        lemma_lines_append(t, l, e + 1);
    }
}

/// Up to `first_nl` there is no newline, and at it there is one.
pub proof fn lemma_first_nl_props(t: Seq<char>, i: int)
    requires
        0 <= i <= t.len(),
    ensures
        forall|x: int| i <= x < first_nl_of(t, i) ==> t[x] != '\n',
        first_nl_of(t, i) < t.len() ==> t[first_nl_of(t, i)] == '\n',
    decreases t.len() - i,
{
    crate::front_matter::lemma_first_nl_bounds(t, i);
    if i < t.len() && t[i] != '\n' {
        lemma_first_nl_props(t, i + 1);
    }
}

/// The ten decimal digits of a 32-bit value recombine to the value.
pub proof fn lemma_digit_sum(v: int)
    requires
        0 <= v <= 0xFFFFFFFF,
    ensures
        digit_of(v, 0) * 1000000000 + digit_of(v, 1) * 100000000 + digit_of(v, 2) * 10000000
            + digit_of(v, 3) * 1000000 + digit_of(v, 4) * 100000 + digit_of(v, 5) * 10000
            + digit_of(v, 6) * 1000 + digit_of(v, 7) * 100 + digit_of(v, 8) * 10 + digit_of(v, 9)
            == v,
{
    lemma_small_mod(v as nat, 10000000000);
    lemma_mod_breakdown(v, 1000000000, 10);
    lemma_mod_breakdown(v, 100000000, 10);
    lemma_mod_breakdown(v, 10000000, 10);
    lemma_mod_breakdown(v, 1000000, 10);
    lemma_mod_breakdown(v, 100000, 10);
    lemma_mod_breakdown(v, 10000, 10);
    lemma_mod_breakdown(v, 1000, 10);
    lemma_mod_breakdown(v, 100, 10);
    lemma_mod_breakdown(v, 10, 10);
    lemma_small_mod((v % 10) as nat, 10);
    assert(v % 10000000000 == v);
    assert(v % (1000000000int * 10) == 1000000000 * ((v / 1000000000) % 10) + v % 1000000000);
    assert(v % (100000000int * 10) == 100000000 * ((v / 100000000) % 10) + v % 100000000);
    assert(v % (10000000int * 10) == 10000000 * ((v / 10000000) % 10) + v % 10000000);
    assert(v % (1000000int * 10) == 1000000 * ((v / 1000000) % 10) + v % 1000000);
    assert(v % (100000int * 10) == 100000 * ((v / 100000) % 10) + v % 100000);
    assert(v % (10000int * 10) == 10000 * ((v / 10000) % 10) + v % 10000);
    assert(v % (1000int * 10) == 1000 * ((v / 1000) % 10) + v % 1000);
    assert(v % (100int * 10) == 100 * ((v / 100) % 10) + v % 100);
    assert(v % (10int * 10) == 10 * ((v / 10) % 10) + v % 10);
}

pub proof fn lemma_digit_char_val(x: int)
    requires
        0 <= x <= 9,
    ensures
        digit_val(digit_char(x)) == x,
        spec_is_digit(digit_char(x)),
{
}

/// Appends the ten zero-padded digits of `v`.
fn push_digits10(out: &mut Vec<char>, v: u32)
    ensures
        final(out)@ =~= old(out)@ + digits10(v as int),
{
    out.push(digit_char_x(v / 1000000000 % 10));
    out.push(digit_char_x(v / 100000000 % 10));
    out.push(digit_char_x(v / 10000000 % 10));
    out.push(digit_char_x(v / 1000000 % 10));
    out.push(digit_char_x(v / 100000 % 10));
    out.push(digit_char_x(v / 10000 % 10));
    out.push(digit_char_x(v / 1000 % 10));
    out.push(digit_char_x(v / 100 % 10));
    out.push(digit_char_x(v / 10 % 10));
    out.push(digit_char_x(v % 10));
}

/// A rendered line denotes exactly its entry.
#[verifier::rlimit(100)]
pub proof fn lemma_entry_line_props(path: Seq<char>, v: int)
    requires
        0 <= v <= 0xFFFFFFFF,
        clean_key(path),
    ensures
        line_entry(digits10(v) + seq!['\t'] + path) == Some((path, v)),
        clean_key(digits10(v) + seq!['\t'] + path),
{
    let l = digits10(v) + seq!['\t'] + path;
    assert(l.len() == 11 + path.len());
    assert forall|x: int| 0 <= x < 10 implies spec_is_digit(#[trigger] l[x]) && digit_val(l[x])
        == digit_of(v, x) && l[x] != '\n' by {
        lemma_digit_char_val(digit_of(v, x));
        assert(l[x] == digits10(v)[x]);
        assert(digits10(v)[x] == digit_char(digit_of(v, x)));
    }
    assert(all_digits(l, 0, 10));
    assert(l[10] == '\t');
    lemma_digit_sum(v);
    assert(digits10_val(l) == v);
    assert(l.skip(11) =~= path);
    assert forall|x: int| 0 <= x < l.len() implies l[x] != '\n' by {
        if x >= 11 {
            assert(l[x] == path[x - 11]);
        }
    }
}

/// Writes one store line for (`path`, `v`): ten digits, tab, path, newline.
fn push_entry_line(out: &mut Vec<char>, path: &String, v: u32) -> (l: Ghost<Seq<char>>)
    requires
        clean_key(path@),
    ensures
        final(out)@ =~= old(out)@ + l@ + seq!['\n'],
        clean_key(l@),
        line_entry(l@) == Some((path@, v as int)),
{
    let ghost l = digits10(v as int) + seq!['\t'] + path@;
    push_digits10(out, v);
    out.push('\t');
    let pc: Vec<char> = chars_of(path.as_str());
    let mut k: usize = 0;
    while k < pc.len()
        invariant
            0 <= k <= pc.len(),
            pc@ == path@,
            out@ =~= old(out)@ + digits10(v as int) + seq!['\t'] + path@.take(k as int),
        decreases pc.len() - k,
    {
        out.push(pc[k]);
        proof {
            assert(path@.take(k + 1) =~= path@.take(k as int).push(path@[k as int]));
        }
        k = k + 1;
    }
    proof {
        assert(path@.take(path@.len() as int) =~= path@);
    }
    out.push('\n');
    proof {
        lemma_entry_line_props(path@, v as int);
        assert(out@ =~= old(out)@ + l + seq!['\n']);
    }
    Ghost(l)
}

/// The decimal digit of `v` written at position `x` of its ten digits.
pub open spec fn digit_of(v: int, x: int) -> int {
    if x == 0 {
        v / 1000000000 % 10
    } else if x == 1 {
        v / 100000000 % 10
    } else if x == 2 {
        v / 10000000 % 10
    } else if x == 3 {
        v / 1000000 % 10
    } else if x == 4 {
        v / 100000 % 10
    } else if x == 5 {
        v / 10000 % 10
    } else if x == 6 {
        v / 1000 % 10
    } else if x == 7 {
        v / 100 % 10
    } else if x == 8 {
        v / 10 % 10
    } else {
        v % 10
    }
}

fn digit_char_x(v: u32) -> (r: char)
    requires
        v <= 9,
    ensures
        r == digit_char(v as int),
{
    if v == 0 {
        '0'
    } else if v == 1 {
        '1'
    } else if v == 2 {
        '2'
    } else if v == 3 {
        '3'
    } else if v == 4 {
        '4'
    } else if v == 5 {
        '5'
    } else if v == 6 {
        '6'
    } else if v == 7 {
        '7'
    } else if v == 8 {
        '8'
    } else {
        '9'
    }
}

impl ChecksumStore {
    /// Writes the table back as flat text: one line per live entry, ten
    /// zero-padded checksum digits, a tab, the path.  Every line denotes an
    /// entry of this map, and every key without a newline is written.
    pub fn render(&self) -> (r: String)
        ensures
            ({
                let ls = spec_lines_from(r@, 0);
                &&& forall|j: int|
                    0 <= j < ls.len() ==> (#[trigger] line_entry(ls[j]) matches Some(e)
                        && self@.contains_key(e.0) && self@[e.0] == e.1)
                &&& forall|k: Seq<char>|
                    #[trigger] self@.contains_key(k) && clean_key(k) ==> exists|j: int|
                        0 <= j < ls.len() && (#[trigger] line_entry(ls[j]) matches Some(e) && e.0
                            == k)
            }),
    {
        let ghost s = self.entries@;
        let mut out: Vec<char> = Vec::new();
        let mut i: usize = 0;
        while i < self.entries.len()
            invariant
                0 <= i <= s.len(),
                s == self.entries@,
                out@.len() == 0 || out@[out@.len() - 1] == '\n',
                forall|j: int|
                    0 <= j < spec_lines_from(out@, 0).len() ==> (#[trigger] line_entry(
                        spec_lines_from(out@, 0)[j],
                    ) matches Some(e) && pairs_map(s).contains_key(e.0) && pairs_map(s)[e.0]
                        == e.1),
                forall|j: int|
                    0 <= j < i && live(s, j) && clean_key((#[trigger] s[j]).0@) ==> exists|t: int|
                        0 <= t < spec_lines_from(out@, 0).len() && (#[trigger] line_entry(
                            spec_lines_from(out@, 0)[t],
                        ) matches Some(e) && e.0 == s[j].0@),
            decreases s.len() - i,
        {
            let is_live: bool = live_at(&self.entries, i);
            let has_clean: bool = clean_check(&self.entries[i].0);
            if is_live && has_clean {
                let ghost before = out@;
                let (p, v): (&String, u32) = (&self.entries[i].0, self.entries[i].1);
                let lg: Ghost<Seq<char>> = push_entry_line(&mut out, p, v);
                let ghost l = lg@;
                proof {
                    lemma_lines_append(before, l, 0);
                    lemma_live_value(s, i as int);
                    let oldls = spec_lines_from(before, 0);
                    let newls = spec_lines_from(out@, 0);
                    assert(newls =~= oldls.push(l));
                    assert(newls[oldls.len() as int] == l);
                    assert(line_entry(l) == Some((s[i as int].0@, s[i as int].1 as int)));
                    assert(forall|t: int| 0 <= t < oldls.len() ==> #[trigger] newls[t] == oldls[t]);
                    assert forall|j: int|
                        0 <= j < i + 1 && live(s, j) && clean_key((#[trigger] s[j]).0@) implies exists|t: int|
                        0 <= t < newls.len() && (#[trigger] line_entry(newls[t]) matches Some(e)
                            && e.0 == s[j].0@) by {
                        if j == i as int {
                            assert(line_entry(newls[oldls.len() as int]) matches Some(e) && e.0
                                == s[j].0@);
                        } else {
                            let t = choose|t: int|
                                0 <= t < oldls.len() && (#[trigger] line_entry(oldls[t]) matches Some(
                                    e,
                                ) && e.0 == s[j].0@);
                            assert(newls[t] == oldls[t]);
                            assert(line_entry(newls[t]) matches Some(e) && e.0 == s[j].0@);
                        }
                    }
                }
            }
            i = i + 1;
        }
        proof {
            assert forall|k: Seq<char>|
                #[trigger] pairs_map(s).contains_key(k) && clean_key(k) implies exists|t: int|
                0 <= t < spec_lines_from(out@, 0).len() && (#[trigger] line_entry(
                    spec_lines_from(out@, 0)[t],
                ) matches Some(e) && e.0 == k) by {
                lemma_map_last_occurrence(s, k);
            }
        }
        string_of_chars(&out)
    }
}

/// Whether no later entry carries the same path.
fn live_at(entries: &Vec<(String, u32)>, i: usize) -> (r: bool)
    requires
        i < entries.len(),
    ensures
        r == live(entries@, i as int),
{
    let mut t: usize = i + 1;
    while t < entries.len()
        invariant
            i < t <= entries.len(),
            forall|x: int| i < x < t ==> (#[trigger] entries@[x]).0@ != entries@[i as int].0@,
        decreases entries.len() - t,
    {
        if entries[t].0 == entries[i].0 {
            return false;
        }
        t = t + 1;
    }
    true
}

fn clean_check(p: &String) -> (r: bool)
    ensures
        r == clean_key(p@),
{
    let pc: Vec<char> = chars_of(p.as_str());
    let mut x: usize = 0;
    while x < pc.len()
        invariant
            0 <= x <= pc.len(),
            pc@ == p@,
            forall|j: int| 0 <= j < x ==> p@[j] != '\n',
        decreases pc.len() - x,
    {
        if pc[x] == '\n' {
            return false;
        }
        x = x + 1;
    }
    true
}

} // verus!
