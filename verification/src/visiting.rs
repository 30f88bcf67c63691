//! What holds of a visited directory, entry by entry, and of the patterns that keep
//! entries out.
use vstd::prelude::*;

use crate::excludes::{
    begins, drop_here, drop_root, drop_slashes, ends, excludes_in, is_space, law_matcher_is_its_patterns,
    matcher_of, pattern_matches, pattern_on, patterns_on, trim_end, trim_start, MatcherModel,
};
use crate::text::{
    law_ascending_sorted, law_text_le_total, law_text_le_transitive, lemma_split_pieces, split,
    text_le,
};
use crate::walk::{
    below, by_name, fate, law_fates_are_met, met, slashed, visit_order, with_fate, EntryKind,
    EntryModel, Fate,
};

verus! {

/// Whether `path` is the path of the entry `name` of the directory `dir`, where the root
/// has the empty path.
pub open spec fn is_path_of(dir: Seq<char>, name: Seq<char>, path: Seq<char>) -> bool {
    &&& dir.len() == 0 ==> path == name
    &&& dir.len() > 0 ==> path == dir + seq!['/'] + name
}

/// Whether `seen` is `path` with `/` in place of every `\`.
pub open spec fn is_seen_as(path: Seq<char>, seen: Seq<char>) -> bool {
    &&& seen.len() == path.len()
    &&& forall|k: int|
        0 <= k < path.len() ==> (#[trigger] seen[k] == if path[k] == '\\' {
            '/'
        } else {
            path[k]
        })
}

/// An entry that can be read, is not the archive that is being written, and whose path
/// no pattern matches is archived if it is no directory, and entered if it is one. It
/// is never both, and no other entry is either.
pub proof fn law_wanted_entries_are_kept(
    patterns: Seq<Seq<char>>,
    dir: Seq<char>,
    entries: Seq<EntryModel>,
    i: int,
    path: Seq<char>,
    seen: Seq<char>,
)
    requires
        0 <= i < entries.len(),
        is_path_of(dir, entries[i].name, path),
        is_seen_as(path, seen),
    ensures
        ({
            let e = entries[i];
            let m = matcher_of(patterns);
            let archived = with_fate(m, dir, entries, Fate::Archived);
            let entered = with_fate(m, dir, entries, Fate::Entered);
            let wanted = e.kind != EntryKind::Unreadable && !e.is_output && forall|p: int|
                0 <= p < patterns.len() ==> !pattern_matches(#[trigger] patterns[p], seen);
            let told_apart = forall|k: int| 0 <= k < entries.len() && k != i ==> (#[trigger] entries[k]).token != e.token;
            &&& wanted && e.kind == EntryKind::Other ==> archived.contains((e.token, path))
            &&& wanted && e.kind == EntryKind::Directory ==> entered.contains((e.token, path))
            &&& told_apart && !(wanted && e.kind == EntryKind::Other) ==> forall|at: Seq<char>|
                !#[trigger] archived.contains((e.token, at))
            &&& told_apart && !(wanted && e.kind == EntryKind::Directory) ==> forall|at: Seq<char>|
                !#[trigger] entered.contains((e.token, at))
        }),
{
    let e = entries[i];
    let m = matcher_of(patterns);
    reveal_strlit("/");
    assert("/"@ =~= seq!['/']);
    assert(below(dir, e.name) =~= path);
    assert(slashed(path) =~= seen);
    law_matcher_is_its_patterns(patterns, seen);
    law_fates_are_met(m, dir, entries, Fate::Archived, (e.token, path));
    law_fates_are_met(m, dir, entries, Fate::Entered, (e.token, path));
    let archived = with_fate(m, dir, entries, Fate::Archived);
    let entered = with_fate(m, dir, entries, Fate::Entered);
    if fate(m, dir, e) == Fate::Archived {
        assert(fate(m, dir, entries[i]) == Fate::Archived);
    }
    if fate(m, dir, e) == Fate::Entered {
        assert(fate(m, dir, entries[i]) == Fate::Entered);
    }
    if forall|k: int| 0 <= k < entries.len() && k != i ==> (#[trigger] entries[k]).token != e.token {
        if fate(m, dir, e) != Fate::Archived {
            assert forall|at: Seq<char>| !#[trigger] archived.contains((e.token, at)) by {
                law_fates_are_met(m, dir, entries, Fate::Archived, (e.token, at));
            }
        }
        if fate(m, dir, e) != Fate::Entered {
            assert forall|at: Seq<char>| !#[trigger] entered.contains((e.token, at)) by {
                law_fates_are_met(m, dir, entries, Fate::Entered, (e.token, at));
            }
        }
    }
}

/// Nothing is made up: whatever is archived or entered is an entry of the directory,
/// under its own token and path.
pub proof fn law_kept_places_are_entries(
    patterns: Seq<Seq<char>>,
    dir: Seq<char>,
    entries: Seq<EntryModel>,
    f: Fate,
    k: int,
)
    requires
        0 <= k < with_fate(matcher_of(patterns), dir, entries, f).len(),
    ensures
        ({
            let place = with_fate(matcher_of(patterns), dir, entries, f)[k];
            exists|i: int|
                0 <= i < entries.len() && (#[trigger] entries[i]).token == place.0 && is_path_of(
                    dir,
                    entries[i].name,
                    place.1,
                )
        }),
{
    let m = matcher_of(patterns);
    let all = with_fate(m, dir, entries, f);
    law_fates_are_met(m, dir, entries, f, all[k]);
    assert(all.contains(all[k]));
    let i = choose|i: int|
        0 <= i < entries.len() && fate(m, dir, #[trigger] entries[i]) == f && all[k] == (
            entries[i].token,
            below(dir, entries[i].name),
        );
    reveal_strlit("/");
    assert("/"@ =~= seq!['/']);
    assert(is_path_of(dir, entries[i].name, all[k].1));
}

/// The order of text goes on behind a common beginning.
pub proof fn law_common_beginning_does_not_order(p: Seq<char>, a: Seq<char>, b: Seq<char>)
    ensures
        text_le(p + a, p + b) == text_le(a, b),
    decreases p.len(),
{
    if p.len() == 0 {
        assert(p + a =~= a);
        assert(p + b =~= b);
    } else {
        let t = p.drop_first();
        assert((p + a).drop_first() =~= t + a);
        assert((p + b).drop_first() =~= t + b);
        law_common_beginning_does_not_order(t, a, b);
    }
}

/// What is archived of a directory, and what is entered, comes in the order of its
/// paths.
pub proof fn law_directories_are_visited_by_name(
    m: MatcherModel,
    dir: Seq<char>,
    entries: Seq<EntryModel>,
    f: Fate,
    a: int,
    b: int,
)
    requires
        0 <= a < b < with_fate(m, dir, entries, f).len(),
    ensures
        text_le(with_fate(m, dir, entries, f)[a].1, with_fate(m, dir, entries, f)[b].1),
{
    let order = visit_order(entries);
    let le = by_name(entries);
    assert forall|x: int, y: int| #[trigger] le(x, y) || le(y, x) by {
        law_text_le_total(entries[x].name, entries[y].name);
    }
    assert forall|x: int, y: int, z: int| #[trigger] le(x, y) && #[trigger] le(y, z) implies le(x, z) by {
        law_text_le_transitive(entries[x].name, entries[y].name, entries[z].name);
    }
    law_ascending_sorted(Seq::new(entries.len(), |i: int| i), le);
    assert forall|x: int, y: int| 0 <= x < y < order.len() implies text_le(
        entries[#[trigger] order[x]].name,
        entries[#[trigger] order[y]].name,
    ) by {
        assert(le(order[x], order[y]));
    }
    if entries.len() > 0 {
        crate::walk::lemma_visits_all(entries, 0);
        lemma_met_ascends(m, dir, entries, order, f, entries.len() as int);
    }
}

proof fn lemma_met_ascends(
    m: MatcherModel,
    dir: Seq<char>,
    entries: Seq<EntryModel>,
    order: Seq<int>,
    f: Fate,
    n: int,
)
    requires
        0 <= n <= order.len(),
        forall|x: int, y: int|
            0 <= x < y < order.len() ==> text_le(entries[#[trigger] order[x]].name, entries[#[trigger] order[y]].name),
    ensures
        forall|a: int, b: int|
            0 <= a < b < met(m, dir, entries, order, f, n).len() ==> text_le(
                (#[trigger] met(m, dir, entries, order, f, n)[a]).1,
                (#[trigger] met(m, dir, entries, order, f, n)[b]).1,
            ),
        forall|a: int|
            0 <= a < met(m, dir, entries, order, f, n).len() ==> exists|k: int|
                0 <= k < n && (#[trigger] met(m, dir, entries, order, f, n)[a]).1 == below(
                    dir,
                    entries[#[trigger] order[k]].name,
                ),
    decreases n,
{
    if n > 0 {
        lemma_met_ascends(m, dir, entries, order, f, n - 1);
        let front = met(m, dir, entries, order, f, n - 1);
        let all = met(m, dir, entries, order, f, n);
        assert forall|a: int| 0 <= a < all.len() implies exists|k: int|
            0 <= k < n && (#[trigger] all[a]).1 == below(dir, entries[#[trigger] order[k]].name) by {
            if a < front.len() {
                assert(all[a] == front[a]);
                let k = choose|k: int|
                    0 <= k < n - 1 && front[a].1 == below(dir, entries[#[trigger] order[k]].name);
                assert(all[a].1 == below(dir, entries[order[k]].name));
            } else {
                assert(all[a].1 == below(dir, entries[order[n - 1]].name));
            }
        }
        assert forall|a: int, b: int| 0 <= a < b < all.len() implies text_le((#[trigger] all[a]).1, (#[trigger] all[b]).1) by {
            assert(all[a] == front[a]);
            if b < front.len() {
                assert(all[b] == front[b]);
            } else {
                let k = choose|k: int|
                    0 <= k < n - 1 && front[a].1 == below(dir, entries[#[trigger] order[k]].name);
                let x = entries[order[k]].name;
                let y = entries[order[n - 1]].name;
                assert(text_le(x, y));
                law_common_beginning_does_not_order(dir + "/"@, x, y);
            }
        }
    }
}

/// A plain pattern, with or without `/` behind it, excludes exactly the path that it
/// names and what is below that.
pub proof fn law_plain_patterns_name_trees(name: Seq<char>, slashes: nat, rel: Seq<char>)
    requires
        name.len() == 0 || name.last() != '/',
        !(name.len() >= 2 && name[0] == '*' && name[1] == '.'),
    ensures
        pattern_matches(name + Seq::new(slashes, |i: int| '/'), rel) <==> rel == name || exists|more: Seq<char>|
            rel == #[trigger] (name.push('/') + more),
{
    let pattern = name + Seq::new(slashes, |i: int| '/');
    lemma_slashes_dropped(name, slashes);
    if begins(pattern, seq!['*', '.']) {
        assert(pattern.take(2)[0] == '*' && pattern.take(2)[1] == '.');
        assert(pattern[0] == '*' && pattern[1] == '.');
    }
    let head = name.push('/');
    if begins(rel, head) {
        assert(rel =~= head + rel.skip(head.len() as int));
    }
    if exists|more: Seq<char>| rel == #[trigger] (head + more) {
        let more = choose|more: Seq<char>| rel == #[trigger] (head + more);
        assert(rel.take(head.len() as int) =~= head);
    }
}

proof fn lemma_slashes_dropped(name: Seq<char>, n: nat)
    requires
        name.len() == 0 || name.last() != '/',
    ensures
        drop_slashes(name + Seq::new(n, |i: int| '/')) == name,
    decreases n,
{
    let s = name + Seq::new(n, |i: int| '/');
    if n > 0 {
        lemma_slashes_dropped(name, (n - 1) as nat);
        assert(s.drop_last() =~= name + Seq::new((n - 1) as nat, |i: int| '/'));
    } else {
        assert(s =~= name);
    }
}

/// A `*.ext` pattern excludes exactly the paths that end in `.ext`.
pub proof fn law_suffix_patterns_name_endings(ext: Seq<char>, rel: Seq<char>)
    ensures
        pattern_matches(seq!['*', '.'] + ext, rel) <==> exists|stem: Seq<char>| rel == #[trigger] (stem + (seq!['.'] + ext)),
{
    let pattern = seq!['*', '.'] + ext;
    let ending = seq!['.'] + ext;
    assert(pattern.take(2) =~= seq!['*', '.']);
    assert(pattern.skip(1) =~= ending);
    if ends(rel, ending) {
        let stem = rel.take(rel.len() - ending.len());
        assert(rel =~= stem + ending);
    }
    if exists|stem: Seq<char>| rel == #[trigger] (stem + ending) {
        let stem = choose|stem: Seq<char>| rel == #[trigger] (stem + ending);
        assert(rel.skip(rel.len() - ending.len()) =~= ending);
    }
}

/// Whether every character of `s` is white space.
pub open spec fn all_space(s: Seq<char>) -> bool {
    forall|k: int| 0 <= k < s.len() ==> is_space(#[trigger] s[k])
}

/// White space is what Unicode says: among the first characters the space and those that
/// move on, then the next line, the spaces of fixed width, the line and paragraph
/// separators, and the ideographic space.
pub proof fn law_white_space(c: char)
    ensures
        (c as int) < 128 ==> (is_space(c) <==> c == ' ' || 9 <= c as int <= 13),
        128 <= c as int && (c as int) < 0x1000 ==> (is_space(c) <==> c as int == 0x85 || c as int == 0xa0),
        0x1000 <= c as int && (c as int) < 0x2000 ==> (is_space(c) <==> c as int == 0x1680),
        0x2000 <= c as int && (c as int) < 0x3000 ==> (is_space(c) <==> c as int <= 0x200a || c as int == 0x2028
            || c as int == 0x2029 || c as int == 0x202f || c as int == 0x205f),
        c as int >= 0x3000 ==> (is_space(c) <==> c as int == 0x3000),
{
}

/// White space around the text of a line does not matter. A line without text, and one
/// whose text starts with `#`, has no pattern; on any other line the pattern is the
/// text, without a leading `./` or `/`.
pub proof fn law_lines_hold_patterns(before: Seq<char>, body: Seq<char>, after: Seq<char>)
    requires
        all_space(before),
        all_space(after),
        body.len() > 0 ==> !is_space(body[0]) && !is_space(body.last()),
    ensures
        pattern_on(before + body + after) == pattern_on(body),
        body.len() == 0 || body[0] == '#' ==> pattern_on(body) is None,
        body.len() > 0 && body[0] != '#' && body[0] != '/' && !begins(body, seq!['.', '/']) ==> pattern_on(body) == Some(
            body,
        ),
        body.len() > 0 && body[0] != '/' && !begins(body, seq!['.', '/']) ==> {
            &&& pattern_on(seq!['/'] + body) == Some(body)
            &&& pattern_on(seq!['.', '/'] + body) == Some(body)
            &&& pattern_on(seq!['.', '/', '/'] + body) == Some(body)
        },
{
    lemma_trimmed(before, body, after);
    lemma_trimmed(seq![], body, seq![]);
    assert(Seq::<char>::empty() + body + Seq::<char>::empty() =~= body);
    if body.len() > 0 && body[0] != '/' && !begins(body, seq!['.', '/']) {
        if body.len() >= 2 && body[0] == '.' && body[1] == '/' {
            assert(body.take(2) =~= seq!['.', '/']);
        }
        assert(drop_here(body) == body);
        assert(drop_root(body) == body);
        let a = seq!['/'] + body;
        let b = seq!['.', '/'] + body;
        let c = seq!['.', '/', '/'] + body;
        lemma_trimmed(seq![], a, seq![]);
        lemma_trimmed(seq![], b, seq![]);
        lemma_trimmed(seq![], c, seq![]);
        assert(Seq::<char>::empty() + a + Seq::<char>::empty() =~= a);
        assert(Seq::<char>::empty() + b + Seq::<char>::empty() =~= b);
        assert(Seq::<char>::empty() + c + Seq::<char>::empty() =~= c);
        assert(a.drop_first() =~= body);
        assert(b.skip(2) =~= body);
        assert(c.skip(2) =~= a);
        assert(drop_root(a) == body);
        assert(drop_here(b) == body);
        assert(drop_here(a) == a);
        assert(drop_here(c) == a);
    }
}

/// However often `./`, or `/`, stands before the text of a line, it counts once.
pub proof fn law_repeated_beginnings_count_once(body: Seq<char>)
    requires
        body.len() > 0,
        !is_space(body.last()),
    ensures
        pattern_on(seq!['.', '/', '.', '/'] + body) == pattern_on(seq!['.', '/'] + body),
        pattern_on(seq!['/', '/'] + body) == pattern_on(seq!['/'] + body),
        pattern_on(seq!['/']) == Some(Seq::<char>::empty()),
        pattern_on(seq!['.', '/']) == Some(Seq::<char>::empty()),
{
    let none = Seq::<char>::empty();
    let x = seq!['/'];
    let y = seq!['.', '/'];
    lemma_trimmed(none, x, none);
    lemma_trimmed(none, y, none);
    assert(none + x + none =~= x);
    assert(none + y + none =~= y);
    assert(x.drop_first() =~= none);
    assert(y.skip(2) =~= none);
    assert(drop_root(none) == none);
    assert(drop_root(x) == none);
    assert(drop_here(none) == none);
    assert(drop_here(y) == none);
    let a = seq!['.', '/'] + body;
    let b = seq!['.', '/', '.', '/'] + body;
    let c = seq!['/'] + body;
    let d = seq!['/', '/'] + body;
    lemma_trimmed(none, a, none);
    lemma_trimmed(none, b, none);
    lemma_trimmed(none, c, none);
    lemma_trimmed(none, d, none);
    assert(none + a + none =~= a);
    assert(none + b + none =~= b);
    assert(none + c + none =~= c);
    assert(none + d + none =~= d);
    assert(b.skip(2) =~= a);
    assert(d.drop_first() =~= c);
}

proof fn lemma_trimmed(before: Seq<char>, body: Seq<char>, after: Seq<char>)
    requires
        all_space(before),
        all_space(after),
        body.len() > 0 ==> !is_space(body[0]) && !is_space(body.last()),
    ensures
        trim_end(trim_start(before + body + after)) == body,
    decreases before.len() + after.len(),
{
    let s = before + body + after;
    if before.len() > 0 {
        let rest = before.drop_first();
        assert(is_space(before[0]));
        assert(s.drop_first() =~= rest + body + after);
        assert forall|k: int| 0 <= k < rest.len() implies is_space(#[trigger] rest[k]) by {
            assert(rest[k] == before[k + 1]);
        }
        lemma_trimmed(rest, body, after);
    } else if body.len() > 0 {
        assert(s =~= body + after);
        assert(s[0] == body[0]);
        assert(trim_start(s) == s);
        lemma_end_trimmed(body, after);
    } else {
        assert(s =~= after);
        assert(body =~= seq![]);
        lemma_all_trimmed(after);
    }
}

proof fn lemma_all_trimmed(s: Seq<char>)
    requires
        all_space(s),
    ensures
        trim_end(trim_start(s)) == Seq::<char>::empty(),
    decreases s.len(),
{
    if s.len() > 0 {
        assert(is_space(s[0]));
        let t = s.drop_first();
        assert forall|k: int| 0 <= k < t.len() implies is_space(#[trigger] t[k]) by {
            assert(t[k] == s[k + 1]);
        }
        lemma_all_trimmed(t);
    } else {
        assert(s =~= Seq::<char>::empty());
    }
}

proof fn lemma_end_trimmed(body: Seq<char>, after: Seq<char>)
    requires
        all_space(after),
        body.len() > 0 && !is_space(body.last()),
    ensures
        trim_end(body + after) == body,
    decreases after.len(),
{
    let s = body + after;
    if after.len() > 0 {
        assert(is_space(after[after.len() - 1]));
        let t = after.drop_last();
        assert forall|k: int| 0 <= k < t.len() implies is_space(#[trigger] t[k]) by {
            assert(t[k] == after[k]);
        }
        assert(s.drop_last() =~= body + t);
        lemma_end_trimmed(body, t);
    } else {
        assert(s =~= body);
    }
}

/// Splitting at a separator splits what stands before it and what stands behind it.
pub proof fn law_split_at_separator(a: Seq<char>, b: Seq<char>, sep: char)
    ensures
        split(a + seq![sep] + b, sep) == split(a, sep) + split(b, sep),
    decreases b.len(),
{
    let s = a + seq![sep] + b;
    if b.len() == 0 {
        assert(s.drop_last() =~= a);
        assert(s.last() == sep);
        assert(split(s, sep) =~= split(a, sep) + split(b, sep));
    } else {
        let t = b.drop_last();
        law_split_at_separator(a, t, sep);
        lemma_split_pieces(t, sep);
        assert(s.drop_last() =~= a + seq![sep] + t);
        assert(s.last() == b.last());
        assert(split(s, sep) =~= split(a, sep) + split(b, sep));
    }
}

proof fn lemma_patterns_add(x: Seq<Seq<char>>, y: Seq<Seq<char>>, n: int)
    requires
        0 <= n <= y.len(),
    ensures
        patterns_on(x + y, x.len() + n) == patterns_on(x, x.len() as int) + patterns_on(y, n),
    decreases n,
{
    if n > 0 {
        lemma_patterns_add(x, y, n - 1);
        assert((x + y)[x.len() + n - 1] == y[n - 1]);
        assert(patterns_on(x + y, x.len() + n) =~= patterns_on(x, x.len() as int) + patterns_on(y, n));
    } else {
        lemma_patterns_prefix(x, y, x.len() as int);
        assert(patterns_on(x + y, x.len() + n) =~= patterns_on(x, x.len() as int) + patterns_on(y, n));
    }
}

proof fn lemma_patterns_prefix(x: Seq<Seq<char>>, y: Seq<Seq<char>>, n: int)
    requires
        0 <= n <= x.len(),
    ensures
        patterns_on(x + y, n) == patterns_on(x, n),
    decreases n,
{
    if n > 0 {
        lemma_patterns_prefix(x, y, n - 1);
        assert((x + y)[n - 1] == x[n - 1]);
    }
}

/// An excludes file is read line by line: the patterns of two parts are those of the
/// first followed by those of the second, and a single line has the pattern on it, if
/// there is one.
pub proof fn law_excludes_are_read_by_line(a: Seq<char>, b: Seq<char>)
    ensures
        excludes_in(a + seq!['\n'] + b) == excludes_in(a) + excludes_in(b),
        !a.contains('\n') ==> (pattern_on(a) matches Some(p) ==> excludes_in(a) == seq![p]),
        !a.contains('\n') ==> (pattern_on(a) is None ==> excludes_in(a).len() == 0),
{
    law_split_at_separator(a, b, '\n');
    lemma_patterns_add(split(a, '\n'), split(b, '\n'), split(b, '\n').len() as int);
    if !a.contains('\n') {
        crate::text::lemma_split_single(a, '\n');
        reveal_with_fuel(patterns_on, 2);
        assert(split(a, '\n')[0] == a);
        if pattern_on(a) is Some {
            assert(excludes_in(a) =~= seq![pattern_on(a)->0]);
        }
    }
}

} // verus!
