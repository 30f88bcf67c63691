//! Exclude patterns: which paths of a tree stay out of an archive.
use vstd::prelude::*;

use crate::text::{chars_of, split, split_text, string_of, texts};

verus! {

/// Whether a character is white space, by Unicode's White_Space property.
pub open spec fn is_space(c: char) -> bool {
    let u = c as int;
    9 <= u <= 13 || u == 32 || u == 0x85 || u == 0xa0 || u == 0x1680 || 0x2000 <= u <= 0x200a || u == 0x2028 || u
        == 0x2029 || u == 0x202f || u == 0x205f || u == 0x3000
}

fn is_white(c: char) -> (r: bool)
    ensures
        r == is_space(c),
{
    let u: u32 = c as u32;
    (9 <= u && u <= 13) || u == 32 || u == 0x85 || u == 0xa0 || u == 0x1680 || (0x2000 <= u && u <= 0x200a) || u
        == 0x2028 || u == 0x2029 || u == 0x202f || u == 0x205f || u == 0x3000
}

/// `s` without white space at its start.
pub open spec fn trim_start(s: Seq<char>) -> Seq<char>
    decreases s.len(),
{
    if s.len() > 0 && is_space(s[0]) {
        trim_start(s.drop_first())
    } else {
        s
    }
}

/// `s` without white space at its end.
pub open spec fn trim_end(s: Seq<char>) -> Seq<char>
    decreases s.len(),
{
    if s.len() > 0 && is_space(s.last()) {
        trim_end(s.drop_last())
    } else {
        s
    }
}

/// `s` without the `./` that it starts with, however often.
pub open spec fn drop_here(s: Seq<char>) -> Seq<char>
    decreases s.len(),
{
    if s.len() >= 2 && s[0] == '.' && s[1] == '/' {
        drop_here(s.skip(2))
    } else {
        s
    }
}

/// `s` without the `/` that it starts with, however often.
pub open spec fn drop_root(s: Seq<char>) -> Seq<char>
    decreases s.len(),
{
    if s.len() > 0 && s[0] == '/' {
        drop_root(s.drop_first())
    } else {
        s
    }
}

/// `s` without the `/` that it ends in, however often.
pub open spec fn drop_slashes(s: Seq<char>) -> Seq<char>
    decreases s.len(),
{
    if s.len() > 0 && s.last() == '/' {
        drop_slashes(s.drop_last())
    } else {
        s
    }
}

/// The pattern on a line; an empty line and a comment have none.
pub open spec fn pattern_on(line: Seq<char>) -> Option<Seq<char>> {
    let t = trim_end(trim_start(line));
    if t.len() == 0 || t[0] == '#' {
        None
    } else {
        Some(drop_root(drop_here(t)))
    }
}

/// The patterns on the first `n` lines.
pub open spec fn patterns_on(lines: Seq<Seq<char>>, n: int) -> Seq<Seq<char>>
    decreases n,
{
    if n <= 0 {
        seq![]
    } else {
        match pattern_on(lines[n - 1]) {
            Some(p) => patterns_on(lines, n - 1).push(p),
            None => patterns_on(lines, n - 1),
        }
    }
}

/// The patterns of an excludes file.
pub open spec fn excludes_in(text: Seq<char>) -> Seq<Seq<char>> {
    let lines = split(text, '\n');
    patterns_on(lines, lines.len() as int)
}

proof fn lemma_trim_start(s: Seq<char>, i: int)
    requires
        0 <= i <= s.len(),
        forall|k: int| 0 <= k < i ==> is_space(#[trigger] s[k]),
        i < s.len() ==> !is_space(s[i]),
    ensures
        trim_start(s) == s.skip(i),
    decreases i,
{
    if i > 0 {
        let t = s.drop_first();
        assert(is_space(s[0]));
        assert forall|k: int| 0 <= k < i - 1 implies is_space(#[trigger] t[k]) by {
            assert(t[k] == s[k + 1]);
        }
        lemma_trim_start(t, i - 1);
        assert(t.skip(i - 1) =~= s.skip(i));
    } else {
        assert(s.skip(0) =~= s);
    }
}

proof fn lemma_trim_end(s: Seq<char>, n: int)
    requires
        0 <= n <= s.len(),
        forall|k: int| n <= k < s.len() ==> is_space(#[trigger] s[k]),
        n > 0 ==> !is_space(s[n - 1]),
    ensures
        trim_end(s) == s.take(n),
    decreases s.len(),
{
    if n < s.len() {
        let t = s.drop_last();
        assert(is_space(s[s.len() - 1]));
        assert forall|k: int| n <= k < t.len() implies is_space(#[trigger] t[k]) by {
            assert(t[k] == s[k]);
        }
        lemma_trim_end(t, n);
        assert(t.take(n) =~= s.take(n));
    } else {
        assert(s.take(n) =~= s);
    }
}

/// The characters of `v` from `from` up to `to`.
fn part(v: &Vec<char>, from: usize, to: usize) -> (r: Vec<char>)
    requires
        from <= to <= v.len(),
    ensures
        r@ == v@.subrange(from as int, to as int),
{
    let mut r: Vec<char> = Vec::new();
    for i in from..to
        invariant
            from <= to <= v.len(),
            r@ == v@.subrange(from as int, i as int),
    {
        r.push(v[i]);
    }
    r
}

fn trimmed(line: &str) -> (r: Vec<char>)
    ensures
        r@ == trim_end(trim_start(line@)),
{
    let cs = chars_of(line);
    let ghost s = line@;
    let mut i: usize = 0;
    while i < cs.len() && is_white(cs[i])
        invariant
            i <= cs.len(),
            cs@ == s,
            forall|k: int| 0 <= k < i ==> is_space(#[trigger] s[k]),
        decreases cs.len() - i,
    {
        i += 1;
    }
    let mut n: usize = cs.len();
    while n > i && is_white(cs[n - 1])
        invariant
            i <= n <= cs.len(),
            cs@ == s,
            forall|k: int| n <= k < cs.len() ==> is_space(#[trigger] s[k]),
        decreases n,
    {
        n -= 1;
    }
    proof {
        lemma_trim_start(s, i as int);
        let t = s.skip(i as int);
        assert forall|k: int| n - i <= k < t.len() implies is_space(#[trigger] t[k]) by {
            assert(t[k] == s[k + i]);
        }
        if n > i {
            assert(t[n - i - 1] == s[n - 1]);
        }
        lemma_trim_end(t, n - i);
        assert(t.take(n - i) =~= s.subrange(i as int, n as int));
    }
    part(&cs, i, n)
}

/// The pattern on `line`, if it has one.
pub fn exclude_pattern(line: &str) -> (r: Option<String>)
    ensures
        match r {
            Some(p) => pattern_on(line@) == Some(p@),
            None => pattern_on(line@) is None,
        },
{
    let t = trimmed(line);
    if t.len() == 0 || t[0] == '#' {
        return None;
    }
    let mut i: usize = 0;
    assert(t@.skip(0) =~= t@);
    while t.len() - i >= 2 && t[i] == '.' && t[i + 1] == '/'
        invariant
            i <= t.len(),
            drop_here(t@) == drop_here(t@.skip(i as int)),
        decreases t.len() - i,
    {
        assert(t@.skip(i as int).skip(2) =~= t@.skip(i + 2));
        i += 2;
    }
    let ghost rest = t@.skip(i as int);
    while i < t.len() && t[i] == '/'
        invariant
            i <= t.len(),
            drop_root(rest) == drop_root(t@.skip(i as int)),
        decreases t.len() - i,
    {
        assert(t@.skip(i as int).drop_first() =~= t@.skip(i + 1));
        i += 1;
    }
    let p = part(&t, i, t.len());
    assert(p@ =~= t@.skip(i as int));
    Some(string_of(p.as_slice()))
}

/// The patterns of an excludes file: one per line, without surrounding white
/// space, empty lines, comments and a leading `./` or `/`.
pub fn parse_excludes(text: &str) -> (r: Vec<String>)
    ensures
        texts(r@) == excludes_in(text@),
{
    let lines = split_text(text, '\n');
    let ghost all = texts(lines@);
    let mut r: Vec<String> = Vec::new();
    assert(texts(r@) =~= patterns_on(all, 0));
    for i in 0..lines.len()
        invariant
            all == texts(lines@),
            texts(r@) == patterns_on(all, i as int),
    {
        let ghost before = texts(r@);
        assert(all[i as int] == lines@[i as int]@);
        if let Some(p) = exclude_pattern(lines[i].as_str()) {
            let ghost q = p@;
            r.push(p);
            assert(texts(r@) =~= before.push(q));
        }
    }
    r
}

/// Whether `s` begins with `p`.
pub open spec fn begins(s: Seq<char>, p: Seq<char>) -> bool {
    s.len() >= p.len() && s.take(p.len() as int) == p
}

/// Whether `s` ends in `p`.
pub open spec fn ends(s: Seq<char>, p: Seq<char>) -> bool {
    s.len() >= p.len() && s.skip(s.len() - p.len()) == p
}

/// Whether a pattern is of the form `*.ext`.
pub open spec fn is_suffix_pattern(pattern: Seq<char>) -> bool {
    begins(pattern, seq!['*', '.'])
}

/// Whether a pattern excludes a path: `*.ext` excludes what ends in `.ext`, any
/// other pattern the path itself and everything below it.
pub open spec fn pattern_matches(pattern: Seq<char>, rel: Seq<char>) -> bool {
    if is_suffix_pattern(pattern) {
        ends(rel, pattern.skip(1))
    } else {
        rel == drop_slashes(pattern) || begins(rel, drop_slashes(pattern).push('/'))
    }
}

/// The paths that the plain ones among the first `n` patterns name.
pub open spec fn exact_of(patterns: Seq<Seq<char>>, n: int) -> Seq<Seq<char>>
    decreases n,
{
    if n <= 0 {
        seq![]
    } else if is_suffix_pattern(patterns[n - 1]) {
        exact_of(patterns, n - 1)
    } else {
        exact_of(patterns, n - 1).push(drop_slashes(patterns[n - 1]))
    }
}

/// The endings that the `*.ext` ones among the first `n` patterns name.
pub open spec fn suffixes_of(patterns: Seq<Seq<char>>, n: int) -> Seq<Seq<char>>
    decreases n,
{
    if n <= 0 {
        seq![]
    } else if is_suffix_pattern(patterns[n - 1]) {
        suffixes_of(patterns, n - 1).push(patterns[n - 1].skip(1))
    } else {
        suffixes_of(patterns, n - 1)
    }
}

/// A matcher for exclude patterns.
#[derive(Debug)]
pub struct ExcludeMatcher {
    exact: Vec<String>,
    suffix: Vec<String>,
}

/// The view of an [`ExcludeMatcher`].
#[verifier::ext_equal]
pub struct MatcherModel {
    pub exact: Seq<Seq<char>>,
    pub suffix: Seq<Seq<char>>,
}

impl View for ExcludeMatcher {
    type V = MatcherModel;

    closed spec fn view(&self) -> MatcherModel {
        MatcherModel { exact: texts(self.exact@), suffix: texts(self.suffix@) }
    }
}

/// The matcher for the given patterns.
pub open spec fn matcher_of(patterns: Seq<Seq<char>>) -> MatcherModel {
    MatcherModel {
        exact: exact_of(patterns, patterns.len() as int),
        suffix: suffixes_of(patterns, patterns.len() as int),
    }
}

/// Whether a matcher excludes a path.
pub open spec fn excludes(m: MatcherModel, rel: Seq<char>) -> bool {
    ||| exists|i: int| 0 <= i < m.suffix.len() && ends(rel, #[trigger] m.suffix[i])
    ||| exists|i: int|
        0 <= i < m.exact.len() && (rel == #[trigger] m.exact[i] || begins(rel, m.exact[i].push('/')))
}

fn is_prefix(p: &Vec<char>, s: &Vec<char>) -> (r: bool)
    ensures
        r == begins(s@, p@),
{
    if p.len() > s.len() {
        return false;
    }
    for i in 0..p.len()
        invariant
            p.len() <= s.len(),
            forall|k: int| 0 <= k < i ==> p@[k] == s@[k],
    {
        if p[i] != s[i] {
            assert(s@.take(p@.len() as int)[i as int] != p@[i as int]);
            return false;
        }
    }
    assert(s@.take(p@.len() as int) =~= p@);
    true
}

fn is_ending(p: &Vec<char>, s: &Vec<char>) -> (r: bool)
    ensures
        r == ends(s@, p@),
{
    if p.len() > s.len() {
        return false;
    }
    let d = s.len() - p.len();
    for i in 0..p.len()
        invariant
            d + p.len() == s.len(),
            forall|k: int| 0 <= k < i ==> p@[k] == s@[d + k],
    {
        if p[i] != s[d + i] {
            assert(s@.skip(d as int)[i as int] != p@[i as int]);
            return false;
        }
    }
    assert(s@.skip(d as int) =~= p@);
    true
}

fn without_slashes(cs: &Vec<char>) -> (r: Vec<char>)
    ensures
        r@ == drop_slashes(cs@),
{
    let mut n: usize = cs.len();
    assert(cs@.take(n as int) =~= cs@);
    while n > 0 && cs[n - 1] == '/'
        invariant
            n <= cs.len(),
            drop_slashes(cs@) == drop_slashes(cs@.take(n as int)),
        decreases n,
    {
        assert(cs@.take(n as int).drop_last() =~= cs@.take(n - 1));
        n -= 1;
    }
    let r = part(cs, 0, n);
    assert(r@ =~= cs@.take(n as int));
    r
}

impl ExcludeMatcher {
    /// The matcher for the given patterns.
    pub fn new(patterns: Vec<String>) -> (r: ExcludeMatcher)
        ensures
            r@ == matcher_of(texts(patterns@)),
    {
        let ghost all = texts(patterns@);
        let mut exact: Vec<String> = Vec::new();
        let mut suffix: Vec<String> = Vec::new();
        let mut star: Vec<char> = Vec::new();
        star.push('*');
        star.push('.');
        assert(star@ =~= seq!['*', '.']);
        assert(texts(exact@) =~= exact_of(all, 0));
        assert(texts(suffix@) =~= suffixes_of(all, 0));
        for i in 0..patterns.len()
            invariant
                all == texts(patterns@),
                star@ == seq!['*', '.'],
                texts(exact@) == exact_of(all, i as int),
                texts(suffix@) == suffixes_of(all, i as int),
        {
            let ghost e = texts(exact@);
            let ghost f = texts(suffix@);
            let cs = chars_of(patterns[i].as_str());
            assert(all[i as int] == cs@);
            if is_prefix(&star, &cs) {
                let ending = part(&cs, 1, cs.len());
                assert(ending@ =~= cs@.skip(1));
                suffix.push(string_of(ending.as_slice()));
                assert(texts(suffix@) =~= f.push(cs@.skip(1)));
            } else {
                let path = without_slashes(&cs);
                exact.push(string_of(path.as_slice()));
                assert(texts(exact@) =~= e.push(drop_slashes(cs@)));
            }
        }
        ExcludeMatcher { exact, suffix }
    }

    /// Whether the path `rel`, relative to the root of the tree, is excluded.
    pub fn excluded(&self, rel: &str, _is_dir: bool) -> (r: bool)
        ensures
            r == excludes(self@, rel@),
    {
        let cs = chars_of(rel);
        let ghost m = self@;
        for i in 0..self.suffix.len()
            invariant
                m == self@,
                cs@ == rel@,
                m.suffix == texts(self.suffix@),
                forall|k: int| 0 <= k < i ==> !ends(rel@, #[trigger] m.suffix[k]),
        {
            let p = chars_of(self.suffix[i].as_str());
            assert(m.suffix[i as int] == p@);
            if is_ending(&p, &cs) {
                return true;
            }
        }
        for i in 0..self.exact.len()
            invariant
                m == self@,
                cs@ == rel@,
                m.exact == texts(self.exact@),
                m.suffix == texts(self.suffix@),
                forall|k: int| 0 <= k < self.suffix.len() ==> !ends(rel@, #[trigger] m.suffix[k]),
                forall|k: int|
                    0 <= k < i ==> !(rel@ == #[trigger] m.exact[k] || begins(rel@, m.exact[k].push('/'))),
        {
            let mut p = chars_of(self.exact[i].as_str());
            assert(m.exact[i as int] == p@);
            let ghost q = p@;
            let whole = p.len() == cs.len() && is_prefix(&p, &cs);
            proof {
                if p.len() == cs.len() {
                    assert(cs@.take(p@.len() as int) =~= cs@);
                }
            }
            if whole {
                return true;
            }
            p.push('/');
            if is_prefix(&p, &cs) {
                return true;
            }
        }
        false
    }
}

/// A matcher excludes exactly what one of its patterns excludes.
pub proof fn law_matcher_is_its_patterns(patterns: Seq<Seq<char>>, rel: Seq<char>)
    ensures
        excludes(matcher_of(patterns), rel) <==> exists|i: int|
            0 <= i < patterns.len() && pattern_matches(#[trigger] patterns[i], rel),
{
    lemma_matcher_upto(patterns, rel, patterns.len() as int);
}

proof fn lemma_matcher_upto(patterns: Seq<Seq<char>>, rel: Seq<char>, n: int)
    requires
        0 <= n <= patterns.len(),
    ensures
        excludes(MatcherModel { exact: exact_of(patterns, n), suffix: suffixes_of(patterns, n) }, rel) <==> exists|
            i: int,
        |
            0 <= i < n && pattern_matches(#[trigger] patterns[i], rel),
    decreases n,
{
    let m = MatcherModel { exact: exact_of(patterns, n), suffix: suffixes_of(patterns, n) };
    if n > 0 {
        lemma_matcher_upto(patterns, rel, n - 1);
        let e = exact_of(patterns, n - 1);
        let f = suffixes_of(patterns, n - 1);
        let front = MatcherModel { exact: e, suffix: f };
        let p = patterns[n - 1];
        if excludes(front, rel) {
            if exists|i: int| 0 <= i < f.len() && ends(rel, #[trigger] f[i]) {
                let i = choose|i: int| 0 <= i < f.len() && ends(rel, #[trigger] f[i]);
                assert(m.suffix[i] == f[i]);
            } else {
                let i = choose|i: int|
                    0 <= i < e.len() && (rel == #[trigger] e[i] || begins(rel, e[i].push('/')));
                assert(m.exact[i] == e[i]);
            }
            assert(excludes(m, rel));
        }
        if pattern_matches(p, rel) {
            if is_suffix_pattern(p) {
                assert(m.suffix[f.len() as int] == p.skip(1));
            } else {
                assert(m.exact[e.len() as int] == drop_slashes(p));
            }
            assert(excludes(m, rel));
        }
        if excludes(m, rel) {
            if exists|i: int| 0 <= i < m.suffix.len() && ends(rel, #[trigger] m.suffix[i]) {
                let i = choose|i: int| 0 <= i < m.suffix.len() && ends(rel, #[trigger] m.suffix[i]);
                if i < f.len() {
                    assert(f[i] == m.suffix[i]);
                    assert(excludes(front, rel));
                } else {
                    assert(pattern_matches(p, rel));
                }
            } else {
                let i = choose|i: int|
                    0 <= i < m.exact.len() && (rel == #[trigger] m.exact[i] || begins(rel, m.exact[i].push('/')));
                if i < e.len() {
                    assert(e[i] == m.exact[i]);
                    assert(excludes(front, rel));
                } else {
                    assert(pattern_matches(p, rel));
                }
            }
        }
    }
}

/// A plain pattern that excludes a directory excludes everything below it too.
pub proof fn law_exclusion_reaches_down(pattern: Seq<char>, dir: Seq<char>, name: Seq<char>)
    requires
        !is_suffix_pattern(pattern),
        pattern_matches(pattern, dir),
    ensures
        pattern_matches(pattern, dir + seq!['/'] + name),
{
    let p = drop_slashes(pattern);
    let below = dir + seq!['/'] + name;
    if dir == p {
        assert(below.take(p.len() as int + 1) =~= p.push('/'));
    } else {
        assert(below.take(p.len() as int + 1) =~= dir.take(p.len() as int + 1));
    }
}

/// A plain pattern stops at a whole component: a longer name that merely starts
/// with the same characters is not excluded by it.
pub proof fn law_prefix_is_whole_component(pattern: Seq<char>, more: Seq<char>)
    requires
        !is_suffix_pattern(pattern),
        more.len() > 0,
        more[0] != '/',
    ensures
        !pattern_matches(pattern, drop_slashes(pattern) + more),
{
    let p = drop_slashes(pattern);
    let rel = p + more;
    assert(rel.len() != p.len());
    if begins(rel, p.push('/')) {
        assert(rel.take(p.len() as int + 1)[p.len() as int] == '/');
        assert(rel[p.len() as int] == more[0]);
    }
}

} // verus!
