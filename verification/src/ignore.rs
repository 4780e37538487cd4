//! Ignore rules: simple glob patterns given on the command line or read from an
//! ignore file, matched against scanned paths.

use vstd::prelude::*;
use crate::text::{chars_of, trim, trim_chars};

verus! {

/// Where the ignore rules of a scan come from.
#[derive(Clone, Debug, Default)]
pub struct IgnoreConfig {
    pub patterns: Vec<String>,
    pub ignore_file: Option<String>,
}

/// Whether the glob pattern `p` matches all of `s`: `*` matches any run of
/// characters (the empty one too), `?` any one character, and every other
/// character itself.
pub open spec fn glob_match(p: Seq<char>, s: Seq<char>) -> bool
    decreases p.len() + s.len(),
{
    if p.len() == 0 {
        s.len() == 0
    } else if p[0] == '*' {
        glob_match(p.skip(1), s) || (s.len() > 0 && glob_match(p, s.skip(1)))
    } else if s.len() == 0 {
        false
    } else if p[0] == '?' || p[0] == s[0] {
        glob_match(p.skip(1), s.skip(1))
    } else {
        false
    }
}

/// A lone `*` matches every path.
pub proof fn lemma_star_matches_everything(s: Seq<char>)
    ensures
        glob_match(seq!['*'], s),
    decreases s.len(),
{
    let p = seq!['*'];
    assert(p.skip(1) =~= Seq::<char>::empty());
    assert(p[0] == '*');
    if s.len() > 0 {
        lemma_star_matches_everything(s.skip(1));
        assert(glob_match(p, s.skip(1)));
    } else {
        assert(glob_match(p.skip(1), s));
    }
}

/// A leading `*` absorbs any prefix: when `p` matches `w`, `*p` matches
/// `u + w` for every `u` (so `*.log` matches `app.2024.log`).
pub proof fn lemma_star_absorbs_prefix(p: Seq<char>, u: Seq<char>, w: Seq<char>)
    requires
        glob_match(p, w),
    ensures
        glob_match(seq!['*'] + p, u + w),
    decreases u.len(),
{
    let sp = seq!['*'] + p;
    assert(sp[0] == '*');
    assert(sp.skip(1) =~= p);
    if u.len() == 0 {
        assert(u + w =~= w);
    } else {
        lemma_star_absorbs_prefix(p, u.skip(1), w);
        assert((u + w).skip(1) =~= u.skip(1) + w);
    }
}

/// `*q` matches `s` exactly when `q` matches some suffix of `s`.
pub proof fn lemma_star_matches_some_suffix(q: Seq<char>, s: Seq<char>)
    ensures
        glob_match(seq!['*'] + q, s) <==> exists|k: int| 0 <= k <= s.len() && glob_match(q, #[trigger] s.skip(k)),
    decreases s.len(),
{
    let sp = seq!['*'] + q;
    assert(sp[0] == '*');
    assert(sp.skip(1) =~= q);
    assert(s.skip(0) =~= s);
    if s.len() > 0 {
        lemma_star_matches_some_suffix(q, s.skip(1));
        if glob_match(sp, s) {
            if !glob_match(q, s) {
                let k = choose|k: int| 0 <= k <= s.skip(1).len() && glob_match(q, #[trigger] s.skip(1).skip(k));
                assert(s.skip(1).skip(k) =~= s.skip(k + 1));
            }
        }
        if exists|k: int| 0 <= k <= s.len() && glob_match(q, #[trigger] s.skip(k)) {
            let k = choose|k: int| 0 <= k <= s.len() && glob_match(q, #[trigger] s.skip(k));
            if k > 0 {
                assert(s.skip(1).skip(k - 1) =~= s.skip(k));
                assert(glob_match(q, s.skip(1).skip(k - 1)));
            }
        }
    } else {
        if exists|k: int| 0 <= k <= s.len() && glob_match(q, #[trigger] s.skip(k)) {
            let k = choose|k: int| 0 <= k <= s.len() && glob_match(q, #[trigger] s.skip(k));
            assert(k == 0);
        }
    }
}

/// `?` stands for exactly one character, whichever it is.
pub proof fn lemma_question_mark_is_one_char(p: Seq<char>, s: Seq<char>)
    ensures
        glob_match(seq!['?'] + p, s) <==> (s.len() > 0 && glob_match(p, s.skip(1))),
{
    let sp = seq!['?'] + p;
    assert(sp[0] == '?');
    assert(sp.skip(1) =~= p);
}

/// A pattern without `*` or `?` matches exactly the text it spells.
pub proof fn lemma_literal_pattern_matches_itself_only(p: Seq<char>, s: Seq<char>)
    requires
        forall|i: int| 0 <= i < p.len() ==> #[trigger] p[i] != '*' && p[i] != '?',
    ensures
        glob_match(p, s) <==> p == s,
    decreases p.len(),
{
    if p.len() == 0 {
        if s.len() == 0 {
            assert(p =~= s);
        }
    } else if s.len() == 0 {
    } else {
        assert forall|i: int| 0 <= i < p.skip(1).len() implies #[trigger] p.skip(1)[i] != '*'
            && p.skip(1)[i] != '?' by {
            assert(p.skip(1)[i] == p[i + 1]);
        }
        lemma_literal_pattern_matches_itself_only(p.skip(1), s.skip(1));
        assert(p[0] != '*' && p[0] != '?');
        if p == s {
            assert(p.skip(1) =~= s.skip(1));
        }
        if p[0] == s[0] && p.skip(1) == s.skip(1) {
            assert(p =~= seq![p[0]] + p.skip(1));
            assert(s =~= seq![s[0]] + s.skip(1));
        }
    }
}

/// Whether `pattern` matches `text`; see `glob_match`.
pub fn glob_matches(pattern: &Vec<char>, text: &Vec<char>) -> (b: bool)
    ensures
        b == glob_match(pattern@, text@),
{
    let lp = pattern.len();
    let ls = text.len();
    let ghost p = pattern@;
    let ghost s = text@;
    // Row `i` of the table: `row[k]` tells whether `p.skip(i)` matches `s.skip(k)`
    // for `k < ls`, and `row_end` whether it matches the empty rest `s.skip(ls)`.
    let mut next: Vec<bool> = Vec::new();
    let mut j: usize = 0;
    proof {
        assert(p.skip(lp as int).len() == 0);
    }
    while j < ls
        invariant
            j <= ls,
            ls == s.len(),
            lp == p.len(),
            p.skip(lp as int).len() == 0,
            next@.len() == j,
            forall|k: int| 0 <= k < j ==> next@[k] == glob_match(p.skip(lp as int), s.skip(k)),
        decreases ls - j,
    {
        next.push(false);
        j = j + 1;
    }
    let mut next_end = true;
    assert(s.skip(ls as int).len() == 0);
    let mut i: usize = lp;
    while i > 0
        invariant
            i <= lp,
            ls == s.len(),
            lp == p.len(),
            p == pattern@,
            s == text@,
            next@.len() == ls,
            forall|k: int| 0 <= k < ls ==> next@[k] == glob_match(p.skip(i as int), s.skip(k)),
            next_end == glob_match(p.skip(i as int), s.skip(ls as int)),
        decreases i,
    {
        let pc = pattern[i - 1];
        let ghost pi = p.skip(i - 1);
        proof {
            assert(pi.skip(1) =~= p.skip(i as int));
            assert(pi[0] == pc);
            assert(s.skip(ls as int).len() == 0);
        }
        let cur_end = pc == '*' && next_end;
        let mut cur: Vec<bool> = Vec::new();
        let mut k: usize = 0;
        while k < ls
            invariant
                k <= ls,
                cur@.len() == k,
            decreases ls - k,
        {
            cur.push(false);
            k = k + 1;
        }
        let mut j: usize = ls;
        while j > 0
            invariant
                j <= ls,
                ls == s.len(),
                lp == p.len(),
                1 <= i <= lp,
                p == pattern@,
                s == text@,
                pi == p.skip(i - 1),
                pi.len() > 0,
                pi[0] == pc,
                pi.skip(1) == p.skip(i as int),
                cur@.len() == ls,
                next@.len() == ls,
                forall|k: int| 0 <= k < ls ==> next@[k] == glob_match(p.skip(i as int), s.skip(k)),
                next_end == glob_match(p.skip(i as int), s.skip(ls as int)),
                cur_end == glob_match(pi, s.skip(ls as int)),
                forall|k: int| j <= k < ls ==> cur@[k] == glob_match(pi, s.skip(k)),
            decreases j,
        {
            let jj = j - 1;
            let ghost sj = s.skip(jj as int);
            proof {
                assert(sj.skip(1) =~= s.skip(jj + 1));
                assert(sj[0] == s[jj as int]);
                assert(sj.len() == ls - jj);
            }
            let after = if jj + 1 < ls { cur[jj + 1] } else { cur_end };
            let next_after = if jj + 1 < ls { next[jj + 1] } else { next_end };
            let v = if pc == '*' {
                next[jj] || after
            } else {
                (pc == '?' || pc == text[jj]) && next_after
            };
            cur.set(jj, v);
            j = jj;
        }
        next = cur;
        next_end = cur_end;
        i = i - 1;
    }
    proof {
        assert(p.skip(0) =~= p);
        assert(s.skip(0) =~= s);
    }
    if ls == 0 {
        next_end
    } else {
        next[0]
    }
}

/// The first index at or after `i` holding a line feed (or the length).
pub open spec fn newline_index(t: Seq<char>, i: int) -> int
    decreases t.len() - i,
{
    if i < 0 || i >= t.len() {
        t.len() as int
    } else if t[i] == '\n' {
        i
    } else {
        newline_index(t, i + 1)
    }
}

/// The rules written in the text of an ignore file: one per line, without
/// surrounding whitespace; empty lines and lines starting with `#` are skipped.
pub open spec fn rules_from_text(t: Seq<char>) -> Seq<Seq<char>>
    decreases t.len(),
{
    if t.len() == 0 {
        Seq::empty()
    } else {
        let e = newline_index(t, 0);
        let line = trim(t.take(e));
        let rest = if 0 <= e < t.len() {
            rules_from_text(t.skip(e + 1))
        } else {
            Seq::empty()
        };
        if line.len() == 0 || line[0] == '#' {
            rest
        } else {
            seq![line] + rest
        }
    }
}

/// Every rule read from an ignore file is non-empty, has no surrounding
/// whitespace and does not start with `#`.
pub proof fn lemma_rules_are_clean(t: Seq<char>)
    ensures
        forall|i: int|
            0 <= i < rules_from_text(t).len() ==> {
                let r = #[trigger] rules_from_text(t)[i];
                &&& r.len() > 0
                &&& r[0] != '#'
                &&& trim(r) == r
            },
    decreases t.len(),
{
    if t.len() > 0 {
        let e = newline_index(t, 0);
        lemma_newline_index_bounds(t, 0);
        let line = trim(t.take(e));
        if 0 <= e < t.len() {
            lemma_rules_are_clean(t.skip(e + 1));
        }
        crate::text::lemma_trim_idempotent(t.take(e));
        let rest = if 0 <= e < t.len() {
            rules_from_text(t.skip(e + 1))
        } else {
            Seq::empty()
        };
        if !(line.len() == 0 || line[0] == '#') {
            assert forall|i: int| 0 <= i < rules_from_text(t).len() implies {
                let r = #[trigger] rules_from_text(t)[i];
                &&& r.len() > 0
                &&& r[0] != '#'
                &&& trim(r) == r
            } by {
                if i > 0 {
                    assert(rules_from_text(t)[i] == rest[i - 1]);
                }
            }
        }
    }
}

proof fn lemma_newline_index_bounds(t: Seq<char>, i: int)
    requires
        0 <= i <= t.len(),
    ensures
        i <= newline_index(t, i) <= t.len(),
    decreases t.len() - i,
{
    if i < t.len() && t[i] != '\n' {
        lemma_newline_index_bounds(t, i + 1);
    }
}

proof fn lemma_newline_index_shift(t: Seq<char>, a: int, i: int)
    requires
        0 <= a <= i <= t.len(),
    ensures
        newline_index(t.skip(a), i - a) == newline_index(t, i) - a,
    decreases t.len() - i,
{
    if i < t.len() && t[i] != '\n' {
        lemma_newline_index_shift(t, a, i + 1);
    }
}

proof fn lemma_newline_index_found(t: Seq<char>, i: int)
    requires
        0 <= i <= t.len(),
    ensures
        newline_index(t, i) < t.len() ==> t[newline_index(t, i)] == '\n',
    decreases t.len() - i,
{
    if i < t.len() && t[i] != '\n' {
        lemma_newline_index_found(t, i + 1);
    }
}

proof fn lemma_newline_index_at(l: Seq<char>, t: Seq<char>, i: int)
    requires
        0 <= i <= l.len(),
        l.len() < t.len(),
        t.take(l.len() as int) == l,
        t[l.len() as int] == '\n',
        forall|k: int| 0 <= k < l.len() ==> #[trigger] l[k] != '\n',
    ensures
        newline_index(t, i) == l.len(),
    decreases l.len() - i,
{
    if i < l.len() {
        assert(t[i] == t.take(l.len() as int)[i]);
        lemma_newline_index_at(l, t, i + 1);
    }
}

proof fn lemma_newline_index_none(l: Seq<char>, i: int)
    requires
        0 <= i <= l.len(),
        forall|k: int| 0 <= k < l.len() ==> #[trigger] l[k] != '\n',
    ensures
        newline_index(l, i) == l.len(),
    decreases l.len() - i,
{
    if i < l.len() {
        lemma_newline_index_none(l, i + 1);
    }
}

/// An ignore file is read line by line, in order: a line that, trimmed, is
/// neither empty nor starts with `#` is a rule (the trimmed line, whatever
/// other characters, spaces included, it holds); any other line adds none.
pub proof fn lemma_rules_line_by_line(l: Seq<char>, rest: Seq<char>)
    requires
        forall|k: int| 0 <= k < l.len() ==> #[trigger] l[k] != '\n',
    ensures
        rules_from_text(l + seq!['\n'] + rest) == if trim(l).len() > 0 && trim(l)[0] != '#' {
            seq![trim(l)] + rules_from_text(rest)
        } else {
            rules_from_text(rest)
        },
        rules_from_text(l) == if trim(l).len() > 0 && trim(l)[0] != '#' {
            seq![trim(l)]
        } else {
            Seq::<Seq<char>>::empty()
        },
{
    let t = l + seq!['\n'] + rest;
    assert(t.take(l.len() as int) =~= l);
    assert(t[l.len() as int] == '\n');
    lemma_newline_index_at(l, t, 0);
    assert(t.skip(l.len() as int + 1) =~= rest);
    if l.len() == 0 {
        assert(trim(l) =~= Seq::<char>::empty());
    } else {
        lemma_newline_index_none(l, 0);
        assert(l.take(l.len() as int) =~= l);
    }
}

/// Every line of `t` (the text from its start, or from just after a line feed,
/// up to the next line feed) is blank or a comment once trimmed.
pub open spec fn only_comments_and_blanks(t: Seq<char>) -> bool {
    forall|i: int|
        0 <= i < t.len() && (i == 0 || t[i - 1] == '\n') ==> {
            let line = trim(#[trigger] t.subrange(i, newline_index(t, i)));
            line.len() == 0 || line[0] == '#'
        }
}

/// An ignore file of comments and blank lines only adds no rule: the patterns
/// are those of the command line alone, as with no ignore file.
pub proof fn lemma_comment_only_file_adds_nothing(t: Seq<char>, from_args: Seq<Seq<char>>)
    requires
        only_comments_and_blanks(t),
    ensures
        rules_from_text(t) == Seq::<Seq<char>>::empty(),
        from_args + rules_from_text(t) == from_args,
    decreases t.len(),
{
    if t.len() > 0 {
        let e = newline_index(t, 0);
        lemma_newline_index_bounds(t, 0);
        lemma_newline_index_found(t, 0);
        assert(t.subrange(0, e) =~= t.take(e));
        if e < t.len() {
            let u = t.skip(e + 1);
            assert forall|j: int| 0 <= j < u.len() && (j == 0 || u[j - 1] == '\n') implies {
                let line = trim(#[trigger] u.subrange(j, newline_index(u, j)));
                line.len() == 0 || line[0] == '#'
            } by {
                let i = j + e + 1;
                assert(t[i - 1] == '\n');
                lemma_newline_index_shift(t, e + 1, i);
                lemma_newline_index_bounds(t, i);
                assert(u.subrange(j, newline_index(u, j)) =~= t.subrange(i, newline_index(t, i)));
            }
            lemma_comment_only_file_adds_nothing(u, from_args);
        }
    }
    assert(from_args + Seq::<Seq<char>>::empty() =~= from_args);
}

/// Reads the rules of an ignore file; see `rules_from_text`.
pub fn parse_ignore_rules(text: &str) -> (rules: Vec<Vec<char>>)
    ensures
        rules@.map_values(|r: Vec<char>| r@) == rules_from_text(text@),
{
    let t = chars_of(text);
    let ghost full = t@;
    let mut rules: Vec<Vec<char>> = Vec::new();
    let mut a: usize = 0;
    proof {
        assert(full.skip(0) =~= full);
        assert(rules@.map_values(|r: Vec<char>| r@) =~= Seq::<Seq<char>>::empty());
        assert(Seq::<Seq<char>>::empty() + rules_from_text(full) =~= rules_from_text(full));
    }
    while a < t.len()
        invariant
            a <= t.len(),
            full == t@,
            rules@.map_values(|r: Vec<char>| r@) + rules_from_text(full.skip(a as int))
                == rules_from_text(full),
        decreases t.len() - a,
    {
        let mut e = a;
        while e < t.len() && t[e] != '\n'
            invariant
                a <= e <= t.len(),
                full == t@,
                newline_index(full, a as int) == newline_index(full, e as int),
            decreases t.len() - e,
        {
            e = e + 1;
        }
        let ghost rest = full.skip(a as int);
        proof {
            lemma_newline_index_shift(full, a as int, a as int);
            assert(newline_index(rest, 0) == e - a);
            assert(rest.take(e - a) =~= full.subrange(a as int, e as int));
            if e < t.len() {
                assert(rest.skip(e - a + 1) =~= full.skip(e + 1));
            }
        }
        let line = trim_chars(&crate::text::slice_chars(&t, a, e));
        let ghost before = rules@.map_values(|r: Vec<char>| r@);
        if !(line.len() == 0 || line[0] == '#') {
            rules.push(line);
            proof {
                assert(rules@.map_values(|r: Vec<char>| r@) =~= before.push(line@));
            }
        }
        if e < t.len() {
            a = e + 1;
        } else {
            a = t.len();
            proof {
                assert(full.skip(a as int) =~= Seq::<char>::empty());
            }
        }
        proof {
            let now = rules@.map_values(|r: Vec<char>| r@);
            if e < t.len() {
                assert(rules_from_text(rest) == if line@.len() == 0 || line@[0] == '#' {
                    rules_from_text(full.skip(e + 1))
                } else {
                    seq![line@] + rules_from_text(full.skip(e + 1))
                });
            }
            assert(now + rules_from_text(full.skip(a as int)) =~= before + rules_from_text(rest));
        }
    }
    proof {
        assert(full.skip(a as int) =~= Seq::<char>::empty());
        assert(rules@.map_values(|r: Vec<char>| r@) + Seq::<Seq<char>>::empty() =~= rules@.map_values(
            |r: Vec<char>| r@,
        ));
    }
    rules
}

/// The view of an optional string slice.
pub open spec fn opt_view(o: Option<&str>) -> Option<Seq<char>> {
    match o {
        Some(s) => Some(s@),
        None => None,
    }
}

/// The ignore rules of a scan, ready to be matched.
pub struct IgnoreMatcher {
    patterns: Vec<Vec<char>>,
    rule_file: Option<Vec<char>>,
}

impl IgnoreMatcher {
    /// The glob patterns, command-line ones first, then those of the ignore file.
    pub closed spec fn patterns(&self) -> Seq<Seq<char>> {
        self.patterns@.map_values(|p: Vec<char>| p@)
    }

    /// The path of the ignore file itself, relative to the scan root, when it
    /// lies inside the scanned tree.
    pub closed spec fn rule_file(&self) -> Option<Seq<char>> {
        match self.rule_file {
            Some(r) => Some(r@),
            None => None,
        }
    }

    /// An entry is ignored when it is the ignore file itself, or when some
    /// pattern matches its path relative to the root or its file name.
    pub open spec fn ignores(&self, rel: Seq<char>, name: Option<Seq<char>>) -> bool {
        ||| self.rule_file() == Some(rel)
        ||| exists|i: int|
            0 <= i < self.patterns().len() && (glob_match(#[trigger] self.patterns()[i], rel) || (
            name is Some && glob_match(self.patterns()[i], name->0)))
    }

    /// The rules of `config`: its patterns, then the rules in `file_text`, the
    /// text of its ignore file; `rule_file_rel` is where that file lies inside
    /// the scanned tree, if it does.
    pub fn from_config(config: &IgnoreConfig, file_text: Option<&str>, rule_file_rel: Option<&str>) -> (m: Self)
        ensures
            m.patterns() == config.patterns@.map_values(|p: String| p@) + match file_text {
                Some(t) => rules_from_text(t@),
                None => Seq::<Seq<char>>::empty(),
            },
            m.rule_file() == opt_view(rule_file_rel),
            file_text matches Some(t) && only_comments_and_blanks(t@) ==> m.patterns()
                == config.patterns@.map_values(|p: String| p@),
    {
        proof {
            if let Some(t) = file_text {
                if only_comments_and_blanks(t@) {
                    lemma_comment_only_file_adds_nothing(t@, config.patterns@.map_values(|p: String| p@));
                }
            }
        }
        let mut patterns: Vec<Vec<char>> = Vec::new();
        let mut k: usize = 0;
        while k < config.patterns.len()
            invariant
                k <= config.patterns@.len(),
                patterns@.map_values(|p: Vec<char>| p@) =~= config.patterns@.take(k as int).map_values(
                    |p: String| p@,
                ),
            decreases config.patterns@.len() - k,
        {
            let ghost before = patterns@.map_values(|p: Vec<char>| p@);
            patterns.push(chars_of(config.patterns[k].as_str()));
            assert(patterns@.map_values(|p: Vec<char>| p@) =~= before.push(config.patterns@[k as int]@));
            assert(config.patterns@.take(k + 1) =~= config.patterns@.take(k as int).push(
                config.patterns@[k as int],
            ));
            k = k + 1;
        }
        assert(config.patterns@.take(k as int) =~= config.patterns@);
        let ghost from_args = patterns@.map_values(|p: Vec<char>| p@);
        if let Some(t) = file_text {
            let rules = parse_ignore_rules(t);
            let mut j: usize = 0;
            while j < rules.len()
                invariant
                    j <= rules@.len(),
                    patterns@.map_values(|p: Vec<char>| p@) =~= from_args + rules@.take(j as int).map_values(
                        |r: Vec<char>| r@,
                    ),
                decreases rules@.len() - j,
            {
                let ghost before = patterns@.map_values(|p: Vec<char>| p@);
                patterns.push(crate::text::slice_chars(&rules[j], 0, rules[j].len()));
                assert(rules[j as int]@.subrange(0, rules[j as int]@.len() as int) =~= rules[j as int]@);
                assert(patterns@.map_values(|p: Vec<char>| p@) =~= before.push(rules@[j as int]@));
                assert(rules@.take(j + 1) =~= rules@.take(j as int).push(rules@[j as int]));
                j = j + 1;
            }
            assert(rules@.take(j as int) =~= rules@);
        }
        let rule_file = match rule_file_rel {
            Some(r) => Some(chars_of(r)),
            None => None,
        };
        IgnoreMatcher { patterns, rule_file }
    }

    /// Whether the entry at `rel` (relative to the scan root, `/`-separated),
    /// named `name`, is ignored; see `ignores`.
    pub fn is_ignored_path(&self, rel: &str, name: Option<&str>) -> (b: bool)
        ensures
            b == self.ignores(rel@, opt_view(name)),
    {
        let rel_chars = chars_of(rel);
        if let Some(r) = &self.rule_file {
            if eq_chars(r, &rel_chars) {
                return true;
            }
        }
        let name_chars = match name {
            Some(n) => Some(chars_of(n)),
            None => None,
        };
        let mut i: usize = 0;
        while i < self.patterns.len()
            invariant
                i <= self.patterns@.len(),
                rel_chars@ == rel@,
                name_chars is Some <==> name is Some,
                name_chars is Some ==> name_chars->0@ == name->0@,
                self.rule_file() != Some(rel@),
                forall|k: int|
                    0 <= k < i ==> !(glob_match(#[trigger] self.patterns()[k], rel@) || (name is Some
                        && glob_match(self.patterns()[k], name->0@))),
            decreases self.patterns@.len() - i,
        {
            let p = &self.patterns[i];
            assert(self.patterns()[i as int] == p@);
            let hit = glob_matches(p, &rel_chars) || match &name_chars {
                Some(n) => glob_matches(p, n),
                None => false,
            };
            if hit {
                return true;
            }
            i = i + 1;
        }
        false
    }
}

/// Whether two character vectors are equal.
pub fn eq_chars(a: &Vec<char>, b: &Vec<char>) -> (r: bool)
    ensures
        r == (a@ == b@),
{
    if a.len() != b.len() {
        return false;
    }
    let mut i: usize = 0;
    while i < a.len()
        invariant
            i <= a@.len() == b@.len(),
            forall|k: int| 0 <= k < i ==> a@[k] == b@[k],
        decreases a@.len() - i,
    {
        if a[i] != b[i] {
            return false;
        }
        i = i + 1;
    }
    assert(a@ =~= b@);
    true
}

} // verus!
