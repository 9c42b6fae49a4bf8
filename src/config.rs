//! The user's configuration file: `class_alias = "<class>", "<alias>"` lines
//! that rename classes in reports; `#` starts a comment.

use vstd::prelude::*;
use crate::text::{chars_of, is_space, space, trim_bounds, trim_start_at, trimmed};

verus! {

/// What is wrong with a line of the configuration.
#[derive(Clone, Copy, Debug, PartialEq, Eq, Structural)]
pub enum IssueKind {
    /// An alias line without `=`.
    MissingEquals,
    /// An alias line with more than one `=`.
    MultipleEquals,
    /// An alias line whose value has no `,`.
    MissingComma,
    /// The class is not written between double quotes.
    ClassNotQuoted,
    /// The alias is not written between double quotes.
    AliasNotQuoted,
    /// A line that is neither an alias, a comment nor blank.
    UnknownSymbol,
}

/// A problem found on line `line` (counted from one); `symbol` is the first
/// word of the line for an unknown symbol, and empty otherwise.
pub struct ConfigIssue {
    pub line: usize,
    pub kind: IssueKind,
    pub symbol: String,
}

/// The parsed configuration: class aliases, in the order first defined;
/// a class defined again keeps its place and takes the later alias.
pub struct Config {
    pub class_mappings: Vec<(String, String)>,
}

/// The index in `s` of the first `c`, or the length of `s`.
pub open spec fn first_at(s: Seq<char>, c: char) -> int
    decreases s.len(),
{
    if s.len() == 0 {
        0
    } else if s[0] == c {
        0
    } else {
        1 + first_at(s.drop_first(), c)
    }
}

/// The lines of `s`, split at `\n`, a `\r` before the `\n` dropped; a final
/// line ending adds no empty line (as `str::lines`).
pub open spec fn lines_of(s: Seq<char>) -> Seq<Seq<char>>
    decreases s.len(),
{
    if s.len() == 0 {
        Seq::empty()
    } else {
        let i = first_at(s, '\n');
        if i < 0 || i >= s.len() {
            seq![s]
        } else {
            let line = if i > 0 && s[i - 1] == '\r' {
                s.take(i - 1)
            } else {
                s.take(i)
            };
            seq![line] + lines_of(s.skip(i + 1))
        }
    }
}

/// The text between double quotes of `v` after trimming, if it is so quoted.
pub open spec fn unquoted(v: Seq<char>) -> Option<Seq<char>> {
    let w = trimmed(v);
    if w.len() >= 2 && w[0] == '"' && w[w.len() - 1] == '"' {
        Some(w.subrange(1, w.len() - 1))
    } else {
        None
    }
}

/// The first word of `l`: its first run of characters that are not white space.
pub open spec fn first_word(l: Seq<char>) -> Seq<char> {
    let a = trim_start_at(l, 0);
    l.subrange(a, a + word_len(l.skip(a)))
}

/// The length of the leading run of non-space characters of `s`.
pub open spec fn word_len(s: Seq<char>) -> int
    decreases s.len(),
{
    if s.len() == 0 || is_space(s[0]) {
        0
    } else {
        1 + word_len(s.drop_first())
    }
}

/// What one line of the configuration says.
pub enum LineView {
    Blank,
    Alias(Seq<char>, Seq<char>),
    Issue(IssueKind, Seq<char>),
}

/// The meaning of one alias statement `t` (comment removed, trimmed).
pub open spec fn alias_line(t: Seq<char>) -> LineView {
    let e = first_at(t, '=');
    if e >= t.len() {
        LineView::Issue(IssueKind::MissingEquals, Seq::empty())
    } else {
        let rhs = t.skip(e + 1);
        if first_at(rhs, '=') < rhs.len() {
            LineView::Issue(IssueKind::MultipleEquals, Seq::empty())
        } else {
            let c = first_at(rhs, ',');
            if c >= rhs.len() {
                LineView::Issue(IssueKind::MissingComma, Seq::empty())
            } else {
                let rest = rhs.skip(c + 1);
                let v1 = rest.take(first_at(rest, ','));
                match (unquoted(rhs.take(c)), unquoted(v1)) {
                    (None, _) => LineView::Issue(IssueKind::ClassNotQuoted, Seq::empty()),
                    (Some(_), None) => LineView::Issue(IssueKind::AliasNotQuoted, Seq::empty()),
                    (Some(k), Some(a)) => LineView::Alias(k, a),
                }
            }
        }
    }
}

/// The meaning of line `l`: comments (a line starting with `#`, or the part
/// after a `#`) and blank lines say nothing.
pub open spec fn line_view(l: Seq<char>) -> LineView {
    if l.len() > 0 && l[0] == '#' {
        LineView::Blank
    } else {
        let t0 = trimmed(l);
        let t = t0.take(first_at(t0, '#'));
        if t.len() >= 11 && t.take(11) == "class_alias"@ {
            alias_line(t)
        } else if t0.len() > 0 {
            LineView::Issue(IssueKind::UnknownSymbol, first_word(l))
        } else {
            LineView::Blank
        }
    }
}

/// The index of class `c` in the alias list `m`, or -1.
pub open spec fn alias_index(m: Seq<(Seq<char>, Seq<char>)>, c: Seq<char>) -> int
    decreases m.len(),
{
    if m.len() == 0 {
        -1
    } else {
        let j = alias_index(m.drop_last(), c);
        if j >= 0 {
            j
        } else if m.last().0 == c {
            m.len() - 1
        } else {
            -1
        }
    }
}

/// The alias list `m` with class `c` renamed to `a`.
pub open spec fn with_alias(m: Seq<(Seq<char>, Seq<char>)>, c: Seq<char>, a: Seq<char>) -> Seq<(Seq<char>, Seq<char>)> {
    let i = alias_index(m, c);
    if i >= 0 {
        m.update(i, (c, a))
    } else {
        m.push((c, a))
    }
}

/// The aliases and the issues (line number, kind, symbol) of `lines`.
pub open spec fn config_of(lines: Seq<Seq<char>>) -> (Seq<(Seq<char>, Seq<char>)>, Seq<(int, IssueKind, Seq<char>)>)
    decreases lines.len(),
{
    if lines.len() == 0 {
        (Seq::empty(), Seq::empty())
    } else {
        let (m, issues) = config_of(lines.drop_last());
        match line_view(lines.last()) {
            LineView::Blank => (m, issues),
            LineView::Alias(c, a) => (with_alias(m, c, a), issues),
            LineView::Issue(k, sym) => (m, issues.push((lines.len() as int, k, sym))),
        }
    }
}

/// The views of an alias list.
pub open spec fn pairs_of(v: Seq<(String, String)>) -> Seq<(Seq<char>, Seq<char>)> {
    v.map_values(|p: (String, String)| (p.0@, p.1@))
}

/// The views of a list of issues.
pub open spec fn issues_of(v: Seq<ConfigIssue>) -> Seq<(int, IssueKind, Seq<char>)> {
    v.map_values(|i: ConfigIssue| (i.line as int, i.kind, i.symbol@))
}

proof fn lemma_first_at(s: Seq<char>, c: char, p: int)
    requires
        0 <= p <= s.len(),
        forall|q: int| 0 <= q < p ==> s[q] != c,
        p < s.len() ==> s[p] == c,
    ensures
        first_at(s, c) == p,
    decreases s.len(),
{
    if s.len() > 0 && p > 0 {
        assert forall|q: int| 0 <= q < p - 1 implies s.drop_first()[q] != c by {
            assert(s.drop_first()[q] == s[q + 1]);
        }
        if p < s.len() {
            assert(s.drop_first()[p - 1] == s[p]);
        }
        lemma_first_at(s.drop_first(), c, p - 1);
    }
}

proof fn lemma_word_len(s: Seq<char>, p: int)
    requires
        0 <= p <= s.len(),
        forall|q: int| 0 <= q < p ==> !is_space(s[q]),
        p < s.len() ==> is_space(s[p]),
    ensures
        word_len(s) == p,
    decreases s.len(),
{
    if s.len() > 0 && p > 0 {
        assert forall|q: int| 0 <= q < p - 1 implies !is_space(s.drop_first()[q]) by {
            assert(s.drop_first()[q] == s[q + 1]);
        }
        if p < s.len() {
            assert(s.drop_first()[p - 1] == s[p]);
        }
        lemma_word_len(s.drop_first(), p - 1);
    }
}

proof fn lemma_alias_index(m: Seq<(Seq<char>, Seq<char>)>, c: Seq<char>, i: int)
    requires
        0 <= i <= m.len(),
        forall|j: int| 0 <= j < i ==> (#[trigger] m[j]).0 != c,
        i < m.len() ==> m[i].0 == c,
    ensures
        alias_index(m, c) == if i < m.len() {
            i
        } else {
            -1
        },
    decreases m.len(),
{
    if m.len() > 0 {
        if i < m.len() - 1 {
            lemma_alias_index(m.drop_last(), c, i);
            assert(m.drop_last()[i] == m[i]);
        } else {
            assert forall|j: int| 0 <= j < m.len() - 1 implies (#[trigger] m.drop_last()[j]).0 != c by {
                assert(m.drop_last()[j] == m[j]);
            }
            lemma_alias_index(m.drop_last(), c, m.len() - 1);
        }
    }
}

/// The index of the first `c` in `cs[from..to]`, or `to`.
fn find_char(cs: &Vec<char>, from: usize, to: usize, c: char) -> (r: usize)
    requires
        from <= to <= cs@.len(),
    ensures
        from <= r <= to,
        r - from == first_at(cs@.subrange(from as int, to as int), c),
{
    let mut i = from;
    while i < to && cs[i] != c
        invariant
            from <= i <= to,
            to <= cs@.len(),
            forall|q: int| from <= q < i ==> cs@[q] != c,
        decreases to - i,
    {
        i = i + 1;
    }
    proof {
        let s = cs@.subrange(from as int, to as int);
        assert forall|q: int| 0 <= q < i - from implies s[q] != c by {
            assert(s[q] == cs@[from + q]);
        }
        if i < to {
            assert(s[i - from] == cs@[i as int]);
        }
        lemma_first_at(s, c, i - from);
    }
    i
}

/// The end of the first word of `cs[from..to]`.
fn word_end(cs: &Vec<char>, from: usize, to: usize) -> (r: usize)
    requires
        from <= to <= cs@.len(),
    ensures
        from <= r <= to,
        r - from == word_len(cs@.subrange(from as int, to as int)),
{
    let mut i = from;
    while i < to && !space(cs[i])
        invariant
            from <= i <= to,
            to <= cs@.len(),
            forall|q: int| from <= q < i ==> !is_space(cs@[q]),
        decreases to - i,
    {
        i = i + 1;
    }
    proof {
        let s = cs@.subrange(from as int, to as int);
        assert forall|q: int| 0 <= q < i - from implies !is_space(s[q]) by {
            assert(s[q] == cs@[from + q]);
        }
        if i < to {
            assert(s[i - from] == cs@[i as int]);
        }
        lemma_word_len(s, i - from);
    }
    i
}

/// The text of `cs[a..b]`, taken from `text`.
fn piece(text: &str, cs: &Vec<char>, a: usize, b: usize) -> (r: String)
    requires
        cs@ == text@,
        a <= b <= cs@.len(),
    ensures
        r@ == cs@.subrange(a as int, b as int),
{
    String::from_str(text.substring_char(a, b))
}

/// The quoted text of `cs[from..to]` (see `unquoted`).
fn unquote(text: &str, cs: &Vec<char>, from: usize, to: usize) -> (r: Option<String>)
    requires
        cs@ == text@,
        from <= to <= cs@.len(),
    ensures
        match unquoted(cs@.subrange(from as int, to as int)) {
            Some(u) => r matches Some(x) && x@ == u,
            None => r is None,
        },
{
    let (a, b) = trim_bounds(cs, from, to);
    let ghost w = cs@.subrange(a as int, b as int);
    if b - a >= 2 && cs[a] == '"' && cs[b - 1] == '"' {
        assert(w[0] == cs@[a as int] && w[w.len() - 1] == cs@[b - 1]);
        assert(w.subrange(1, w.len() - 1) =~= cs@.subrange(a + 1, b - 1));
        Some(piece(text, cs, a + 1, b - 1))
    } else {
        assert(b - a >= 2 ==> w[0] == cs@[a as int] && w[w.len() - 1] == cs@[b - 1]);
        None
    }
}

/// What a line says, as values.
enum Parsed {
    Nothing,
    Alias(String, String),
    Problem(IssueKind, String),
}

spec fn parsed_view(p: Parsed) -> LineView {
    match p {
        Parsed::Nothing => LineView::Blank,
        Parsed::Alias(c, a) => LineView::Alias(c@, a@),
        Parsed::Problem(k, s) => LineView::Issue(k, s@),
    }
}

fn parse_alias(text: &str, cs: &Vec<char>, a: usize, b: usize) -> (r: Parsed)
    requires
        cs@ == text@,
        a <= b <= cs@.len(),
    ensures
        parsed_view(r) == alias_line(cs@.subrange(a as int, b as int)),
{
    let ghost t = cs@.subrange(a as int, b as int);
    let e = find_char(cs, a, b, '=');
    if e == b {
        return Parsed::Problem(IssueKind::MissingEquals, String::new());
    }
    let ghost rhs = t.skip(e - a + 1);
    assert(rhs =~= cs@.subrange(e + 1, b as int));
    let e2 = find_char(cs, e + 1, b, '=');
    if e2 < b {
        return Parsed::Problem(IssueKind::MultipleEquals, String::new());
    }
    let c = find_char(cs, e + 1, b, ',');
    if c == b {
        return Parsed::Problem(IssueKind::MissingComma, String::new());
    }
    let ghost rest = rhs.skip(c - e);
    assert(rest =~= cs@.subrange(c + 1, b as int));
    let c2 = find_char(cs, c + 1, b, ',');
    assert(rhs.take(c - e - 1) =~= cs@.subrange(e + 1, c as int));
    assert(rest.take(c2 - c - 1) =~= cs@.subrange(c + 1, c2 as int));
    let class = unquote(text, cs, e + 1, c);
    let alias = unquote(text, cs, c + 1, c2);
    match (class, alias) {
        (None, _) => Parsed::Problem(IssueKind::ClassNotQuoted, String::new()),
        (Some(_), None) => Parsed::Problem(IssueKind::AliasNotQuoted, String::new()),
        (Some(k), Some(v)) => Parsed::Alias(k, v),
    }
}

fn parse_line(text: &str, cs: &Vec<char>, a: usize, b: usize) -> (r: Parsed)
    requires
        cs@ == text@,
        a <= b <= cs@.len(),
    ensures
        parsed_view(r) == line_view(cs@.subrange(a as int, b as int)),
{
    let ghost l = cs@.subrange(a as int, b as int);
    if b > a && cs[a] == '#' {
        assert(l[0] == cs@[a as int]);
        return Parsed::Nothing;
    }
    assert(b > a ==> l[0] == cs@[a as int]);
    let (ta, tb) = trim_bounds(cs, a, b);
    let h = find_char(cs, ta, tb, '#');
    let ghost t0 = cs@.subrange(ta as int, tb as int);
    assert(t0.take(h - ta) =~= cs@.subrange(ta as int, h as int));
    if h - ta >= 11 {
        let head = piece(text, cs, ta, ta + 11);
        assert(head@ =~= cs@.subrange(ta as int, h as int).take(11));
        if head == String::from_str("class_alias") {
            return parse_alias(text, cs, ta, h);
        }
    }
    if tb > ta {
        proof {
            assert(l.skip(ta - a) =~= cs@.subrange(ta as int, b as int));
        }
        let we = word_end(cs, ta, b);
        let sym = piece(text, cs, ta, we);
        assert(sym@ =~= first_word(l));
        return Parsed::Problem(IssueKind::UnknownSymbol, sym);
    }
    Parsed::Nothing
}

/// Defines class `c` to be reported as `a`.
fn set_alias(maps: &mut Vec<(String, String)>, c: String, a: String)
    ensures
        pairs_of(final(maps)@) == with_alias(pairs_of(old(maps)@), c@, a@),
{
    let ghost m = pairs_of(maps@);
    let mut i: usize = 0;
    while i < maps.len()
        invariant
            i <= maps@.len(),
            maps@ == old(maps)@,
            m == pairs_of(maps@),
            forall|j: int| 0 <= j < i ==> (#[trigger] m[j]).0 != c@,
        decreases maps.len() - i,
    {
        if maps[i].0 == c {
            proof {
                lemma_alias_index(m, c@, i as int);
            }
            maps.set(i, (c, a));
            assert(pairs_of(maps@) =~= with_alias(m, c@, a@));
            return;
        }
        i = i + 1;
    }
    proof {
        lemma_alias_index(m, c@, i as int);
    }
    maps.push((c, a));
    assert(pairs_of(maps@) =~= with_alias(m, c@, a@));
}

impl Config {
    /// Reads a configuration text: its aliases, and the problems met on its
    /// lines in order (see `config_of`).
    pub fn parse(text: &str) -> (r: (Config, Vec<ConfigIssue>))
        ensures
            (pairs_of(r.0.class_mappings@), issues_of(r.1@)) == config_of(lines_of(text@)),
    {
        let cs = chars_of(text);
        let n = cs.len();
        let mut maps: Vec<(String, String)> = Vec::new();
        let mut issues: Vec<ConfigIssue> = Vec::new();
        let mut pos: usize = 0;
        let mut line_no: usize = 0;
        let ghost mut done: Seq<Seq<char>> = Seq::empty();
        assert(cs@.skip(0) =~= cs@);
        while pos < n
            invariant
                cs@ == text@,
                n == cs@.len(),
                pos <= n,
                line_no <= pos,
                line_no == done.len(),
                lines_of(cs@) == done + lines_of(cs@.skip(pos as int)),
                (pairs_of(maps@), issues_of(issues@)) == config_of(done),
            decreases n - pos,
        {
            let e = find_char(&cs, pos, n, '\n');
            let le = if e < n && e > pos && cs[e - 1] == '\r' {
                e - 1
            } else {
                e
            };
            let ghost s = cs@.skip(pos as int);
            let ghost line = cs@.subrange(pos as int, le as int);
            proof {
                assert(s =~= cs@.subrange(pos as int, n as int));
                let i = e - pos;
                if e < n {
                    assert(s[i] == cs@[e as int]);
                    if i > 0 {
                        assert(s[i - 1] == cs@[e - 1]);
                    }
                    if le < e {
                        assert(s.take(i - 1) =~= line);
                    } else {
                        assert(s.take(i) =~= line);
                    }
                    assert(s.skip(i + 1) =~= cs@.skip(e + 1));
                    assert(lines_of(s) == seq![line] + lines_of(cs@.skip(e + 1)));
                } else {
                    assert(line =~= s);
                    assert(cs@.skip(n as int) =~= Seq::<char>::empty());
                }
            }
            let parsed = parse_line(text, &cs, pos, le);
            let ghost m0 = pairs_of(maps@);
            let ghost next = done.push(line);
            proof {
                assert(next.drop_last() =~= done);
                assert(next.last() == line);
            }
            match parsed {
                Parsed::Nothing => {},
                Parsed::Alias(c, a) => {
                    set_alias(&mut maps, c, a);
                },
                Parsed::Problem(kind, symbol) => {
                    let ghost i0 = issues@;
                    issues.push(ConfigIssue { line: line_no + 1, kind, symbol });
                    assert(issues_of(issues@) =~= issues_of(i0).push(((line_no + 1) as int, kind, symbol@)));
                },
            }
            proof {
                done = next;
                if e < n {
                    assert(done + lines_of(cs@.skip(e + 1)) =~= (done.drop_last() + seq![line]) + lines_of(cs@.skip(e + 1)));
                } else {
                    assert(done + lines_of(cs@.skip(n as int)) =~= done);
                }
            }
            line_no = line_no + 1;
            pos = if e < n {
                e + 1
            } else {
                n
            };
        }
        assert(cs@.skip(n as int) =~= Seq::<char>::empty());
        assert(done + lines_of(cs@.skip(n as int)) =~= done);
        (Config { class_mappings: maps }, issues)
    }

    /// The configuration of `text`, its problems left aside (see `parse`).
    pub fn new(text: &str) -> (r: Config)
        ensures
            pairs_of(r.class_mappings@) == config_of(lines_of(text@)).0,
    {
        Config::parse(text).0
    }
}

} // verus!
